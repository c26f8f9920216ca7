//! Laws of keeping the listeners whose delivery succeeded: exactly those
//! whose flag is set are kept, in their order.

use crate::recent_cache::retain_where;
use vstd::prelude::*;

verus! {

/// Keeping by flags keeps exactly the elements whose flag is set, in their
/// order: it is filtering the (element, flag) pairs by the flag. So as many
/// elements are kept as flags are set, none whose flag is clear, and every
/// one whose flag is set.
pub proof fn lemma_retain_where_is_filter<E>(s: Seq<E>, keep: Seq<bool>)
    requires
        keep.len() == s.len(),
    ensures
        retain_where(s, keep) == Seq::new(s.len(), |i: int| (s[i], keep[i])).filter(
            |p: (E, bool)| p.1,
        ).map_values(|p: (E, bool)| p.0),
        retain_where(s, keep).len() == keep.filter(|b: bool| b).len(),
    decreases s.len(),
{
    reveal(Seq::filter);
    let z = Seq::new(s.len(), |i: int| (s[i], keep[i]));
    if s.len() == 0 {
        assert(z.filter(|p: (E, bool)| p.1).map_values(|p: (E, bool)| p.0) =~= Seq::<E>::empty());
    } else {
        let n = s.len() - 1;
        let ks = keep.take(n as int);
        lemma_retain_where_is_filter(s.drop_last(), ks);
        let zs = Seq::new(s.drop_last().len(), |i: int| (s.drop_last()[i], ks[i]));
        assert(z.drop_last() =~= zs);
        assert(keep.drop_last() =~= ks);
        let fz = zs.filter(|p: (E, bool)| p.1);
        if keep[n as int] {
            assert(z.filter(|p: (E, bool)| p.1) == fz.push(z.last()));
            assert(fz.push(z.last()).map_values(|p: (E, bool)| p.0) =~= fz.map_values(
                |p: (E, bool)| p.0,
            ).push(s.last()));
        } else {
            assert(z.filter(|p: (E, bool)| p.1) == fz);
        }
    }
}

/// Keeping by one more flag keeps one more element exactly when the flag is
/// set: a listener whose delivery failed is dropped, whichever it is.
pub proof fn lemma_retain_where_push<S>(s: Seq<S>, keep: Seq<bool>, x: S, b: bool)
    requires
        keep.len() == s.len(),
    ensures
        retain_where(s.push(x), keep.push(b)) == if b {
            retain_where(s, keep).push(x)
        } else {
            retain_where(s, keep)
        },
{
    assert(s.push(x).drop_last() =~= s);
    assert(keep.push(b).take(s.len() as int) =~= keep);
}

} // verus!

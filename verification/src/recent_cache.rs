//! The state of a recent cache: the most recent messages sent to it, and the
//! listeners that receive each new message. A new listener is first handed
//! the recent messages, then every later one, for as long as it accepts them.
//!
//! The cache is driven step by step. For each new message, `on_message`
//! records it and returns one copy per listener, to be handed to the
//! listeners in their order; `on_delivered` then drops the listeners that
//! refused their copy. For each new listener, `on_listener` adds it and
//! returns the copies of the recent messages to hand to it first.

use crate::silence_gate::{last_n, lemma_last_n_append};
use std::collections::VecDeque;
use vstd::prelude::*;

verus! {

/// The messages a cache of `capacity` keeps of `sent`: all of them without a
/// capacity, else the last `capacity` of them.
pub open spec fn keep_recent<T>(sent: Seq<T>, capacity: Option<usize>) -> Seq<T> {
    match capacity {
        Some(c) => last_n(sent, c as nat),
        None => sent,
    }
}

/// `copies` holds one clone of each element of `originals`, in order.
pub open spec fn clones_of<T: Clone>(originals: Seq<T>, copies: Seq<T>) -> bool {
    &&& copies.len() == originals.len()
    &&& forall|i: int| 0 <= i < copies.len() ==> cloned(originals[i], #[trigger] copies[i])
}

/// The elements of `s` whose flag in `keep` is set, in order.
pub open spec fn retain_where<S>(s: Seq<S>, keep: Seq<bool>) -> Seq<S>
    decreases s.len(),
{
    if s.len() == 0 {
        Seq::<S>::empty()
    } else {
        let rest = retain_where(s.drop_last(), keep.take(s.len() - 1));
        if keep[s.len() - 1] {
            rest.push(s.last())
        } else {
            rest
        }
    }
}

/// Keeping by the same flags keeps as many elements of two equally long
/// sequences.
pub proof fn lemma_retain_where_len<A, B>(s: Seq<A>, t: Seq<B>, keep: Seq<bool>)
    requires
        s.len() == t.len(),
    ensures
        retain_where(s, keep).len() == retain_where(t, keep).len(),
    decreases s.len(),
{
    if s.len() > 0 {
        lemma_retain_where_len(s.drop_last(), t.drop_last(), keep.take(s.len() - 1));
    }
}

/// Every element kept is an element of the original sequence.
pub proof fn lemma_retain_where_from<A>(s: Seq<A>, keep: Seq<bool>)
    ensures
        forall|k: int|
            0 <= k < retain_where(s, keep).len() ==> exists|i: int|
                0 <= i < s.len() && s[i] == #[trigger] retain_where(s, keep)[k],
    decreases s.len(),
{
    if s.len() > 0 {
        let init = s.drop_last();
        let ik = keep.take(s.len() - 1);
        lemma_retain_where_from(init, ik);
        let rest = retain_where(init, ik);
        assert forall|k: int| 0 <= k < retain_where(s, keep).len() implies exists|i: int|
            0 <= i < s.len() && s[i] == #[trigger] retain_where(s, keep)[k] by {
            if k < rest.len() {
                assert(retain_where(s, keep)[k] == rest[k]);
                assert(exists|i: int| 0 <= i < init.len() && init[i] == #[trigger] rest[k]);
                let i = choose|i: int| 0 <= i < init.len() && init[i] == rest[k];
                assert(init[i] == s[i]);
                assert(s[i] == retain_where(s, keep)[k]);
            } else {
                assert(s[s.len() - 1] == retain_where(s, keep)[k]);
            }
        }
    }
}

/// Keeps the items whose flag is set, in their order.
pub fn retain_delivered<S>(items: &mut VecDeque<S>, delivered: &[bool])
    requires
        delivered@.len() == old(items)@.len(),
    ensures
        final(items)@ == retain_where(old(items)@, delivered@),
{
    let n: usize = items.len();
    let ghost s = items@;
    let mut i: usize = 0;
    while i < n
        invariant
            n == s.len(),
            delivered@.len() == n,
            i <= n,
            items@ == s.skip(i as int) + retain_where(s.take(i as int), delivered@.take(i as int)),
        decreases n - i,
    {
        let front = items.pop_front();
        proof {
            assert(s.take(i + 1).drop_last() =~= s.take(i as int));
            assert(delivered@.take(i + 1).take(i as int) =~= delivered@.take(i as int));
        }
        match front {
            Some(x) => {
                if delivered[i] {
                    items.push_back(x);
                }
            },
            None => {},
        }
        proof {
            assert(items@ =~= s.skip(i + 1) + retain_where(s.take(i + 1), delivered@.take(i + 1)));
        }
        i += 1;
    }
    proof {
        assert(s.take(n as int) =~= s);
        assert(delivered@.take(n as int) =~= delivered@);
        assert(s.skip(n as int) =~= Seq::<S>::empty());
        assert(items@ =~= retain_where(s, delivered@));
    }
}

/// Clones of the elements of `items`, in order.
fn clone_all<T: Clone>(items: &VecDeque<T>) -> (copies: Vec<T>)
    ensures
        clones_of(items@, copies@),
{
    let mut copies: Vec<T> = Vec::new();
    let mut i: usize = 0;
    while i < items.len()
        invariant
            i <= items@.len(),
            copies@.len() == i,
            forall|j: int| 0 <= j < i ==> cloned(items@[j], #[trigger] copies@[j]),
        decreases items@.len() - i,
    {
        let c = items[i].clone();
        copies.push(c);
        i += 1;
    }
    copies
}

/// `n` clones of `item`.
fn clone_n<T: Clone>(item: &T, n: usize) -> (copies: Vec<T>)
    ensures
        copies@.len() == n,
        forall|i: int| 0 <= i < n ==> cloned(*item, #[trigger] copies@[i]),
{
    let mut copies: Vec<T> = Vec::new();
    let mut i: usize = 0;
    while i < n
        invariant
            i <= n,
            copies@.len() == i,
            forall|j: int| 0 <= j < i ==> cloned(*item, #[trigger] copies@[j]),
        decreases n - i,
    {
        let c = item.clone();
        copies.push(c);
        i += 1;
    }
    copies
}

/// The state of a recent cache whose listeners are handles of type `L`.
#[verifier::reject_recursive_types(T)]
#[verifier::reject_recursive_types(L)]
pub struct RecentLog<T, L> {
    capacity: Option<usize>,
    recent: VecDeque<T>,
    listeners: VecDeque<L>,
    sent: Ghost<Seq<T>>,
    streams: Ghost<Seq<(nat, Seq<T>)>>,
}

/// What a listener that joined when `joined` messages had been sent must
/// have been handed once `sent` have been: the recent messages at the time
/// it joined, then every message since, in order.
pub open spec fn owed<T>(sent: Seq<T>, capacity: Option<usize>, joined: nat) -> Seq<T> {
    keep_recent(sent.take(joined as int), capacity) + sent.skip(joined as int)
}

/// The position, among all messages sent, of the first message owed to a
/// listener that joined when `joined` messages had been sent: the oldest of
/// the last `capacity` of them (the very first without a capacity).
pub open spec fn first_owed(joined: nat, capacity: Option<usize>) -> nat {
    match capacity {
        Some(c) => if joined <= c { 0 } else { (joined - c) as nat },
        None => 0,
    }
}

/// What a listener is owed is an unbroken run of the messages sent: every
/// message from position `first_owed` on, in order, each once. So a message
/// sent before the listener joined reaches it exactly when it is among the
/// last `capacity` sent before, and one sent after always does.
pub proof fn lemma_owed_is_suffix<T>(sent: Seq<T>, capacity: Option<usize>, joined: nat)
    requires
        joined <= sent.len(),
    ensures
        first_owed(joined, capacity) <= joined,
        owed(sent, capacity, joined) == sent.skip(first_owed(joined, capacity) as int),
{
    let j = joined as int;
    match capacity {
        Some(c) => {
            if j <= c {
                assert(last_n(sent.take(j), c as nat) =~= sent.take(j));
            } else {
                assert(last_n(sent.take(j), c as nat) =~= sent.subrange(j - c, j));
            }
            assert(owed(sent, capacity, joined) =~= sent.skip(first_owed(joined, capacity) as int));
        },
        None => {
            assert(sent.take(j) + sent.skip(j) =~= sent);
        },
    }
}

impl<T, L> View for RecentLog<T, L> {
    type V = Seq<T>;

    /// The recent messages, oldest first.
    closed spec fn view(&self) -> Seq<T> {
        self.recent@
    }
}

impl<T: Clone, L> RecentLog<T, L> {
    pub closed spec fn capacity(&self) -> Option<usize> {
        self.capacity
    }

    /// Every message sent to the cache so far, oldest first.
    pub closed spec fn sent(&self) -> Seq<T> {
        self.sent@
    }

    /// The listeners, in the order in which they arrived.
    pub closed spec fn listeners(&self) -> Seq<L> {
        self.listeners@
    }

    /// For each listener, in order: how many messages had been sent when it
    /// joined, and the messages it has been handed since, in order.
    pub closed spec fn streams(&self) -> Seq<(nat, Seq<T>)> {
        self.streams@
    }

    /// The recent messages are the most recent `capacity` messages sent, and
    /// each listener has been handed a clone of each message it is owed.
    pub closed spec fn wf(&self) -> bool {
        &&& self.recent@ == keep_recent(self.sent@, self.capacity)
        &&& self.streams@.len() == self.listeners@.len()
        &&& forall|i: int|
            0 <= i < self.streams@.len() ==> #[trigger] self.streams@[i].0 <= self.sent@.len()
                && clones_of(owed(self.sent@, self.capacity, self.streams@[i].0), self.streams@[i].1)
    }

    /// Every listener has been handed, in order, a clone of each of the last
    /// `capacity` messages sent before it joined (all of them without a
    /// capacity), then a clone of each message sent since, each once.
    pub proof fn lemma_listeners_handed_recent_then_later(&self)
        requires
            self.wf(),
        ensures
            self.streams().len() == self.listeners().len(),
            forall|i: int|
                0 <= i < self.streams().len() ==> #[trigger] self.streams()[i].0 <= self.sent().len()
                    && clones_of(
                    keep_recent(self.sent().take(self.streams()[i].0 as int), self.capacity())
                        + self.sent().skip(self.streams()[i].0 as int),
                    self.streams()[i].1,
                ),
    {
    }

    /// The recent messages are the last `capacity` messages sent (all of them
    /// without a capacity), so the cache never holds more than its capacity.
    pub proof fn lemma_recent_are_most_recent(&self)
        requires
            self.wf(),
        ensures
            self@ == keep_recent(self.sent(), self.capacity()),
            self.capacity() matches Some(c) ==> self@.len() <= c,
    {
    }

    /// Each listener has been handed a clone of every message sent from
    /// position `first_owed` on (computed from when it joined), in order and
    /// once each, whether messages came before or after it joined.
    pub proof fn lemma_listener_stream_is_a_suffix(&self, i: int)
        requires
            self.wf(),
            0 <= i < self.streams().len(),
        ensures
            first_owed(self.streams()[i].0, self.capacity()) <= self.streams()[i].0 <= self.sent().len(),
            clones_of(
                self.sent().skip(first_owed(self.streams()[i].0, self.capacity()) as int),
                self.streams()[i].1,
            ),
    {
        lemma_owed_is_suffix(self.sent@, self.capacity, self.streams@[i].0);
    }

    /// An empty cache that keeps the last `capacity` messages, or all of
    /// them when `capacity` is `None`.
    pub fn new(capacity: Option<usize>) -> (log: Self)
        ensures
            log.wf(),
            log.capacity() == capacity,
            log.sent() == Seq::<T>::empty(),
            log@ == Seq::<T>::empty(),
            log.listeners() == Seq::<L>::empty(),
            log.streams() == Seq::<(nat, Seq<T>)>::empty(),
    {
        let reserve: usize = match capacity {
            Some(c) => c,
            None => 0,
        };
        let log = RecentLog {
            capacity,
            recent: VecDeque::with_capacity(reserve),
            listeners: VecDeque::new(),
            sent: Ghost(Seq::empty()),
            streams: Ghost(Seq::empty()),
        };
        proof {
            match capacity {
                Some(c) => {
                    assert(last_n(Seq::<T>::empty(), c as nat) =~= Seq::<T>::empty());
                },
                None => {},
            }
        }
        log
    }

    /// The recent messages, oldest first.
    pub fn recent(&self) -> (r: &VecDeque<T>)
        ensures
            r@ == self@,
    {
        &self.recent
    }

    /// The listeners, in the order in which they arrived.
    pub fn listener_handles(&self) -> (l: &VecDeque<L>)
        ensures
            l@ == self.listeners(),
    {
        &self.listeners
    }

    /// The number of listeners.
    pub fn listener_count(&self) -> (n: usize)
        ensures
            n == self.listeners().len(),
    {
        self.listeners.len()
    }

    /// Adds a message to the recent ones, dropping the oldest beyond the
    /// capacity.
    fn record(&mut self, item: T)
        requires
            old(self).recent@ == keep_recent(old(self).sent@, old(self).capacity),
        ensures
            final(self).recent@ == keep_recent(final(self).sent@, final(self).capacity),
            final(self).capacity == old(self).capacity,
            final(self).listeners@ == old(self).listeners@,
            final(self).streams@ == old(self).streams@,
            final(self).sent@ == old(self).sent@.push(item),
            final(self).recent@ == keep_recent(old(self).recent@.push(item), old(self).capacity),
    {
        let ghost before = self.recent@;
        proof {
            lemma_keep_recent_push(self.sent@, item, self.capacity);
        }
        match self.capacity {
            Some(c) => {
                if c > 0 {
                    if self.recent.len() == c {
                        let _ = self.recent.pop_front();
                    }
                    self.recent.push_back(item);
                    proof {
                        assert(self.recent@ =~= last_n(before.push(item), c as nat));
                    }
                } else {
                    proof {
                        assert(last_n(before.push(item), 0) =~= Seq::<T>::empty());
                        assert(before =~= Seq::<T>::empty());
                    }
                }
            },
            None => {
                self.recent.push_back(item);
            },
        }
        self.sent = Ghost(self.sent@.push(item));
    }

    /// Takes in a new message: records it, and returns one clone of it for
    /// each listener, in the listeners' order (the `i`th for the `i`th
    /// listener). The other listeners are handed nothing else.
    pub fn on_message(&mut self, item: T) -> (outgoing: Vec<T>)
        requires
            old(self).wf(),
        ensures
            final(self).wf(),
            final(self).capacity() == old(self).capacity(),
            final(self).listeners() == old(self).listeners(),
            final(self).sent() == old(self).sent().push(item),
            final(self)@ == keep_recent(old(self)@.push(item), old(self).capacity()),
            outgoing@.len() == old(self).listeners().len(),
            forall|i: int| 0 <= i < outgoing@.len() ==> cloned(item, #[trigger] outgoing@[i]),
            final(self).streams().len() == old(self).streams().len(),
            forall|i: int|
                0 <= i < outgoing@.len() ==> #[trigger] final(self).streams()[i] == (
                old(self).streams()[i].0,
                old(self).streams()[i].1.push(outgoing@[i]),
            ),
    {
        let outgoing = clone_n(&item, self.listeners.len());
        let ghost old_sent = self.sent@;
        let ghost old_streams = self.streams@;
        self.record(item);
        self.streams = Ghost(
            Seq::new(old_streams.len(), |i: int| (old_streams[i].0, old_streams[i].1.push(outgoing@[i]))),
        );
        proof {
            assert forall|i: int| 0 <= i < self.streams@.len() implies #[trigger] self.streams@[i].0
                <= self.sent@.len() && clones_of(
                owed(self.sent@, self.capacity, self.streams@[i].0),
                self.streams@[i].1,
            ) by {
                let j = old_streams[i].0;
                assert(self.sent@.take(j as int) =~= old_sent.take(j as int));
                assert(self.sent@.skip(j as int) =~= old_sent.skip(j as int).push(item));
                let before = owed(old_sent, self.capacity, j);
                assert(owed(self.sent@, self.capacity, j) =~= before.push(item));
                assert(clones_of(before, old_streams[i].1));
                let h = self.streams@[i].1;
                assert forall|k: int| 0 <= k < h.len() implies cloned(
                    before.push(item)[k],
                    #[trigger] h[k],
                ) by {
                    if k < before.len() {
                        assert(h[k] == old_streams[i].1[k]);
                    }
                }
            }
        }
        outgoing
    }

    /// Takes in which listeners accepted the copy they were handed: keeps
    /// those that did, in order, and drops the others (their receivers are
    /// gone).
    pub fn on_delivered(&mut self, delivered: &[bool])
        requires
            old(self).wf(),
            delivered@.len() == old(self).listeners().len(),
        ensures
            final(self).wf(),
            final(self).capacity() == old(self).capacity(),
            final(self).sent() == old(self).sent(),
            final(self)@ == old(self)@,
            final(self).listeners() == retain_where(old(self).listeners(), delivered@),
            final(self).streams() == retain_where(old(self).streams(), delivered@),
    {
        let ghost old_streams = self.streams@;
        proof {
            lemma_retain_where_len(self.listeners@, old_streams, delivered@);
            lemma_retain_where_from(old_streams, delivered@);
        }
        retain_delivered(&mut self.listeners, delivered);
        self.streams = Ghost(retain_where(old_streams, delivered@));
        proof {
            assert forall|k: int| 0 <= k < self.streams@.len() implies #[trigger] self.streams@[k].0
                <= self.sent@.len() && clones_of(
                owed(self.sent@, self.capacity, self.streams@[k].0),
                self.streams@[k].1,
            ) by {
                let i = choose|i: int| 0 <= i < old_streams.len() && old_streams[i] == self.streams@[k];
                assert(old_streams[i].0 <= self.sent@.len());
            }
        }
    }

    /// Takes in a new listener: adds it after the others, and returns clones
    /// of the recent messages, oldest first, to hand to it before anything
    /// else. The other listeners are handed nothing.
    pub fn on_listener(&mut self, listener: L) -> (replay: Vec<T>)
        requires
            old(self).wf(),
        ensures
            final(self).wf(),
            final(self).capacity() == old(self).capacity(),
            final(self).sent() == old(self).sent(),
            final(self)@ == old(self)@,
            final(self).listeners() == old(self).listeners().push(listener),
            clones_of(keep_recent(old(self).sent(), old(self).capacity()), replay@),
            final(self).streams() == old(self).streams().push((old(self).sent().len(), replay@)),
    {
        let replay = clone_all(&self.recent);
        self.listeners.push_back(listener);
        let ghost n = self.sent@.len();
        self.streams = Ghost(self.streams@.push((n, replay@)));
        proof {
            assert(self.sent@.take(n as int) =~= self.sent@);
            assert(self.sent@.skip(n as int) =~= Seq::<T>::empty());
            assert(owed(self.sent@, self.capacity, n) =~= keep_recent(self.sent@, self.capacity));
            assert forall|i: int| 0 <= i < self.streams@.len() implies #[trigger] self.streams@[i].0
                <= self.sent@.len() && clones_of(
                owed(self.sent@, self.capacity, self.streams@[i].0),
                self.streams@[i].1,
            ) by {
                if i < self.streams@.len() - 1 {
                    assert(self.streams@[i] == old(self).streams@[i]);
                }
            }
        }
        replay
    }
}

/// A cache's recent messages after one more message are the most recent
/// `capacity` of all the messages sent: keeping the last `capacity` after
/// each message is keeping the last `capacity` of them all.
pub proof fn lemma_keep_recent_push<T>(sent: Seq<T>, item: T, capacity: Option<usize>)
    ensures
        keep_recent(keep_recent(sent, capacity).push(item), capacity)
            == keep_recent(sent.push(item), capacity),
{
    match capacity {
        Some(c) => {
            assert(keep_recent(sent, capacity).push(item) =~= last_n(sent, c as nat) + seq![item]);
            assert(sent.push(item) =~= sent + seq![item]);
            lemma_last_n_append(sent, seq![item], c as nat);
        },
        None => {},
    }
}

} // verus!

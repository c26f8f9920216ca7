//! A silence detector: a sliding window over the power (squared amplitude) of the
//! most recent samples, open while the mean power exceeds a threshold.

use std::collections::VecDeque;
use vstd::prelude::*;

verus! {

/// Number of most recent samples whose power the detector averages.
pub const SILENCE_SAMPLE_WINDOW: usize = 8000;

/// Mean power above which the detector is open.
pub const SILENCE_POWER_THRESHOLD: u128 = 1_000_000_000_000;

/// The largest power of one `i32` sample: `i32::MIN` squared.
pub open spec fn max_power() -> int {
    0x4000_0000_0000_0000
}

/// The power of one sample: its square.
pub open spec fn power(x: i32) -> u64 {
    (x as int * x as int) as u64
}

/// The powers of a run of samples, in order.
pub open spec fn powers(data: Seq<i32>) -> Seq<u64> {
    data.map_values(|x: i32| power(x))
}

/// The last `n` elements of `s` (all of `s` when it is shorter).
pub open spec fn last_n<A>(s: Seq<A>, n: nat) -> Seq<A> {
    if s.len() <= n {
        s
    } else {
        s.subrange(s.len() - n, s.len() as int)
    }
}

/// The sum of a sequence of powers.
pub open spec fn sum(s: Seq<u64>) -> int
    decreases s.len(),
{
    if s.len() == 0 {
        0
    } else {
        sum(s.drop_last()) + s.last()
    }
}

/// The window of a detector holding `window` after it has heard `data`.
pub open spec fn window_after(window: Seq<u64>, data: Seq<i32>) -> Seq<u64> {
    last_n(window + powers(data), SILENCE_SAMPLE_WINDOW as nat)
}

/// Whether the mean of the powers in `window` exceeds the threshold.
/// An empty window has no mean and never exceeds it.
pub open spec fn mean_power_exceeds(window: Seq<u64>) -> bool {
    window.len() > 0 && sum(window) > SILENCE_POWER_THRESHOLD * window.len()
}

/// Keeping the last `n` twice is keeping the last `n` once.
pub proof fn lemma_last_n_append<A>(x: Seq<A>, y: Seq<A>, n: nat)
    ensures
        last_n(last_n(x, n) + y, n) =~= last_n(x + y, n),
{
    let lx = last_n(x, n);
    if x.len() <= n {
        assert(lx + y =~= x + y);
    } else {
        let a = lx + y;
        let b = x + y;
        assert(a.len() == n + y.len());
        if y.len() >= n {
            assert forall|i: int| 0 <= i < n implies last_n(a, n)[i] == last_n(b, n)[i] by {
                assert(last_n(a, n)[i] == a[a.len() - n + i]);
                assert(last_n(b, n)[i] == b[b.len() - n + i]);
            }
        } else {
            assert forall|i: int| 0 <= i < n implies last_n(a, n)[i] == last_n(b, n)[i] by {
                assert(last_n(a, n)[i] == a[y.len() + i]);
                assert(last_n(b, n)[i] == b[b.len() - n + i]);
                if i < n - y.len() {
                    assert(a[y.len() + i] == lx[y.len() + i]);
                    assert(lx[y.len() + i] == x[x.len() - n + y.len() + i]);
                } else {
                    assert(a[y.len() + i] == y[i - (n - y.len())]);
                }
            }
        }
    }
}

/// The window after hearing `data` holds, oldest first, the most recent
/// `SILENCE_SAMPLE_WINDOW` values of the stream formed by the window's powers
/// followed by the square of every sample of `data`: every sample heard
/// enters the window, the newest last, and only the oldest leave it.
pub proof fn lemma_window_holds_latest_powers(window: Seq<u64>, data: Seq<i32>)
    ensures
        window_after(window, data).len() == if window.len() + data.len() <= SILENCE_SAMPLE_WINDOW {
            (window.len() + data.len()) as int
        } else {
            SILENCE_SAMPLE_WINDOW as int
        },
        forall|j: int|
            0 <= j < window_after(window, data).len() ==> {
                let t = window.len() + data.len() - window_after(window, data).len() + j;
                #[trigger] window_after(window, data)[j] as int == if t < window.len() {
                    window[t] as int
                } else {
                    data[t - window.len()] as int * data[t - window.len()] as int
                }
            },
{
    let r = window_after(window, data);
    let all = window + powers(data);
    assert forall|j: int| 0 <= j < r.len() implies {
        let t = window.len() + data.len() - r.len() + j;
        #[trigger] r[j] as int == if t < window.len() {
            window[t] as int
        } else {
            data[t - window.len()] as int * data[t - window.len()] as int
        }
    } by {
        let t = window.len() + data.len() - r.len() + j;
        assert(r[j] == all[t]);
        if t >= window.len() {
            let x = data[t - window.len()];
            assert(all[t] == power(x));
            assert(0 <= x as int * x as int <= max_power()) by (nonlinear_arith)
                requires
                    -0x8000_0000 <= x <= 0x7fff_ffff,
            ;
        }
    }
}

/// Appending one element adds it to the sum.
pub proof fn lemma_sum_push(s: Seq<u64>, x: u64)
    ensures
        sum(s.push(x)) == sum(s) + x,
{
    assert(s.push(x).drop_last() =~= s);
}

/// The sum splits off its first element.
pub proof fn lemma_sum_first(s: Seq<u64>)
    requires
        s.len() > 0,
    ensures
        sum(s) == s[0] + sum(s.subrange(1, s.len() as int)),
    decreases s.len(),
{
    if s.len() == 1 {
        assert(s.drop_last() =~= Seq::<u64>::empty());
        assert(s.subrange(1, 1) =~= Seq::<u64>::empty());
    } else {
        let t = s.drop_last();
        lemma_sum_first(t);
        assert(t.subrange(1, t.len() as int) =~= s.subrange(1, s.len() as int).drop_last());
    }
}

/// A sum of bounded powers is bounded by their number.
pub proof fn lemma_sum_bound(s: Seq<u64>)
    requires
        forall|i: int| 0 <= i < s.len() ==> s[i] <= max_power(),
    ensures
        0 <= sum(s) <= s.len() * max_power(),
    decreases s.len(),
{
    if s.len() > 0 {
        lemma_sum_bound(s.drop_last());
    }
}

/// Tracks the power of the most recent samples of one audio channel.
pub struct SilenceGate {
    samples: VecDeque<u64>,
    total: u128,
}

impl View for SilenceGate {
    type V = Seq<u64>;

    /// The powers of the most recent samples, oldest first.
    closed spec fn view(&self) -> Seq<u64> {
        self.samples@
    }
}

impl SilenceGate {
    /// The detector's internal consistency: the window is bounded, every power is
    /// the power of some `i32`, and the running total is their sum.
    pub closed spec fn wf(&self) -> bool {
        &&& self.samples@.len() <= SILENCE_SAMPLE_WINDOW
        &&& forall|i: int| 0 <= i < self.samples@.len() ==> self.samples@[i] <= max_power()
        &&& self.total == sum(self.samples@)
    }

    /// The window never holds more than `SILENCE_SAMPLE_WINDOW` powers.
    pub proof fn lemma_window_bounded(&self)
        requires
            self.wf(),
        ensures
            self@.len() <= SILENCE_SAMPLE_WINDOW,
    {
    }

    /// A detector that has heard nothing.
    pub fn new() -> (gate: Self)
        ensures
            gate.wf(),
            gate@ == Seq::<u64>::empty(),
    {
        SilenceGate { samples: VecDeque::with_capacity(SILENCE_SAMPLE_WINDOW), total: 0 }
    }

    /// Feeds samples to the detector, oldest first.
    pub fn add_sound(&mut self, data: &[i32])
        requires
            old(self).wf(),
        ensures
            final(self).wf(),
            final(self)@ == window_after(old(self)@, data@),
    {
        let mut i: usize = 0;
        while i < data.len()
            invariant
                self.wf(),
                0 <= i <= data.len(),
                self@ == window_after(old(self)@, data@.take(i as int)),
            decreases data.len() - i,
        {
            let d: i32 = data[i];
            let wide: i64 = d as i64;
            assert(wide * wide <= max_power()) by (nonlinear_arith)
                requires
                    -0x8000_0000 <= wide <= 0x7fff_ffff,
            ;
            assert(wide * wide >= 0) by (nonlinear_arith);
            let v: u64 = (wide * wide) as u64;
            assert(v == power(d));
            let ghost before = self.samples@;
            if self.samples.len() == SILENCE_SAMPLE_WINDOW {
                let front = self.samples.pop_front();
                proof {
                    lemma_sum_first(before);
                    lemma_sum_bound(self.samples@);
                }
                match front {
                    Some(f) => {
                        self.total = self.total - f as u128;
                    },
                    None => {},
                }
            }
            proof {
                lemma_sum_bound(self.samples@);
                lemma_sum_push(self.samples@, v);
            }
            self.total = self.total + v as u128;
            self.samples.push_back(v);
            proof {
                let ghost prev = old(self)@ + powers(data@.take(i as int));
                assert(old(self)@ + powers(data@.take(i + 1)) =~= prev + seq![v]);
                lemma_last_n_append(prev, seq![v], SILENCE_SAMPLE_WINDOW as nat);
                assert(before + seq![v] =~= before.push(v));
                assert(self.samples@ =~= last_n(before + seq![v], SILENCE_SAMPLE_WINDOW as nat));
            }
            i += 1;
        }
        assert(data@.take(data@.len() as int) =~= data@);
    }

    /// Whether the mean power of the window exceeds the threshold.
    pub fn is_open(&self) -> (open: bool)
        requires
            self.wf(),
        ensures
            open == mean_power_exceeds(self@),
    {
        let n: usize = self.samples.len();
        n > 0 && self.total > SILENCE_POWER_THRESHOLD * (n as u128)
    }
}

} // verus!

//! A stateful FIR filter that only emits every so many samples.

use vstd::prelude::*;
use crate::ieee::Real32;

verus! {

/// Floating-point arithmetic of the filter.
pub trait FilterMath {
    /// `acc + tap * x`.
    fn multiply_accumulate(&self, acc: Real32, tap: Real32, x: Real32) -> Real32;
}

/// `next` is what `m` gives for `acc + tap * x`.
pub open spec fn mac_gives<M: FilterMath>(m: M, acc: Real32, tap: Real32, x: Real32, next: Real32) -> bool {
    call_ensures(M::multiply_accumulate, (&m, acc, tap, x), next)
}

/// `accs` are the successive accumulator values of the product of `taps` and
/// `xs`, from zero on.
pub open spec fn accumulates<M: FilterMath>(
    m: M,
    taps: Seq<Real32>,
    xs: Seq<Real32>,
    accs: Seq<Real32>,
) -> bool {
    &&& accs.len() == taps.len() + 1
    &&& accs[0].bits == 0
    &&& forall|k: int|
        0 <= k < taps.len() ==> #[trigger] mac_gives(m, accs[k], taps[k], xs[k], accs[k + 1])
}

/// `y` is the sum of products of `taps` and `xs`, accumulated first to last.
pub open spec fn is_dot<M: FilterMath>(m: M, taps: Seq<Real32>, xs: Seq<Real32>, y: Real32) -> bool {
    exists|accs: Seq<Real32>| #[trigger] accumulates(m, taps, xs, accs) && y == accs.last()
}

/// The state of a filter.
#[verifier::ext_equal]
pub struct FilterState {
    /// Coefficients; the first multiplies the newest sample.
    pub taps: Seq<Real32>,
    /// The last samples, newest first, as many as there are taps.
    pub history: Seq<Real32>,
    /// Inputs per output.
    pub factor: nat,
    /// Inputs since the last output.
    pub phase: nat,
}

impl FilterState {
    /// A filter that has seen nothing but silence.
    pub open spec fn start(taps: Seq<Real32>, factor: nat) -> FilterState {
        FilterState {
            taps,
            history: Seq::new(taps.len(), |k: int| Real32 { bits: 0 }),
            factor,
            phase: 0,
        }
    }

    /// The state after one more input `x`.
    pub open spec fn after(self, x: Real32) -> FilterState {
        FilterState {
            history: seq![x] + self.history.drop_last(),
            phase: (self.phase + 1) % self.factor,
            ..self
        }
    }

    /// The next input completes a group of `factor`.
    pub open spec fn emits(self) -> bool {
        self.phase + 1 == self.factor
    }

    /// The state can arise.
    pub open spec fn valid(self) -> bool {
        &&& self.taps.len() == self.history.len()
        &&& self.taps.len() > 0
        &&& self.phase < self.factor
    }
}

/// Filtering `x` in state `s` gives `y`: the product of the taps and the history
/// with `x` as its newest sample, once per `factor` inputs.
pub open spec fn filters<M: FilterMath>(m: M, s: FilterState, x: Real32, y: Option<Real32>) -> bool {
    match y {
        Some(v) => s.emits() && is_dot(m, s.taps, s.after(x).history, v),
        None => !s.emits(),
    }
}

/// A FIR filter that emits every `factor`-th input sample.
///
/// The delay line is a ring; the tap loop runs per output sample.
pub struct FirDecimator {
    taps: Vec<Real32>,
    hist: Vec<Real32>,
    pos: usize,
    factor: usize,
    phase: usize,
}

/// Where in a ring of `len` slots, of which `pos` is written next, the sample
/// stands that is `age` samples old.
pub open spec fn ring_slot(len: int, pos: int, age: int) -> int {
    if age < pos {
        pos - 1 - age
    } else {
        len + pos - 1 - age
    }
}

impl FirDecimator {
    /// The state that contracts speak of.
    pub closed spec fn state(&self) -> FilterState {
        FilterState {
            taps: self.taps@,
            history: Seq::new(
                self.hist@.len(),
                |age: int| self.hist@[ring_slot(self.hist@.len() as int, self.pos as int, age)],
            ),
            factor: self.factor as nat,
            phase: self.phase as nat,
        }
    }

    /// The delay line is as long as the filter, and both positions are in range.
    pub closed spec fn well_formed(&self) -> bool {
        &&& self.taps@.len() == self.hist@.len()
        &&& self.taps@.len() > 0
        &&& self.pos < self.hist@.len()
        &&& self.phase < self.factor
    }

    /// What is true of every well-formed filter.
    pub proof fn lemma_valid(&self)
        requires
            self.well_formed(),
        ensures
            self.state().valid(),
            self.state().factor <= usize::MAX,
    {
    }

    /// A decimating filter. `taps` are newest first.
    pub fn new(taps: Vec<Real32>, factor: usize) -> (f: Self)
        requires
            taps@.len() > 0,
            factor >= 1,
        ensures
            f.well_formed(),
            f.state() == FilterState::start(taps@, factor as nat),
    {
        let len: usize = taps.len();
        let mut hist: Vec<Real32> = Vec::new();
        let mut k: usize = 0;
        while k < len
            invariant
                k <= len,
                hist@.len() == k,
                forall|j: int| 0 <= j < k ==> #[trigger] hist@[j] == (Real32 { bits: 0 }),
            decreases len - k,
        {
            hist.push(Real32 { bits: 0 });
            k = k + 1;
        }
        let f = FirDecimator { taps, hist, pos: 0, factor, phase: 0 };
        assert(f.state() =~= FilterState::start(taps@, factor as nat));
        f
    }

    /// Inputs since the last output.
    pub fn phase(&self) -> (n: usize)
        ensures
            n == self.state().phase,
    {
        self.phase
    }

    /// Write `x` into the delay line and step the ring.
    fn push(&mut self, x: Real32)
        requires
            old(self).well_formed(),
        ensures
            final(self).well_formed(),
            final(self).taps == old(self).taps,
            final(self).factor == old(self).factor,
            final(self).phase == old(self).phase,
            final(self).state().history == seq![x] + old(self).state().history.drop_last(),
    {
        let ghost before = *self;
        let len: usize = self.hist.len();
        self.hist[self.pos] = x;
        self.pos = self.pos + 1;
        if self.pos == len {
            self.pos = 0;
        }
        proof {
            let len = self.hist@.len() as int;
            let now = self.state().history;
            let want = seq![x] + before.state().history.drop_last();
            assert forall|age: int| 0 <= age < len implies now[age] == want[age] by {
                let slot = ring_slot(len, self.pos as int, age);
                assert(0 <= slot < len);
                if age == 0 {
                    assert(slot == before.pos);
                } else {
                    assert(slot == ring_slot(len, before.pos as int, age - 1));
                    assert(slot != before.pos);
                    assert(self.hist@[slot] == before.hist@[slot]);
                }
            }
            assert(now =~= want);
        }
    }

    /// The product of the taps and the delay line, newest sample first.
    fn dot<M: FilterMath>(&self, m: &M) -> (y: Real32)
        requires
            self.well_formed(),
        ensures
            is_dot(*m, self.state().taps, self.state().history, y),
    {
        let taps: usize = self.taps.len();
        let mut idx: usize = if self.pos == 0 {
            taps - 1
        } else {
            self.pos - 1
        };
        let mut acc = Real32 { bits: 0 };
        let ghost mut accs: Seq<Real32> = seq![acc];
        let ghost xs = self.state().history;
        let mut k: usize = 0;
        while k < taps
            invariant
                self.well_formed(),
                taps == self.taps@.len(),
                xs == self.state().history,
                k <= taps,
                k < taps ==> idx == ring_slot(taps as int, self.pos as int, k as int),
                idx < taps,
                accs.len() == k + 1,
                accs[0].bits == 0,
                accs.last() == acc,
                forall|j: int|
                    0 <= j < k ==> #[trigger] mac_gives(
                        *m,
                        accs[j],
                        self.taps@[j],
                        xs[j],
                        accs[j + 1],
                    ),
            decreases taps - k,
        {
            let next = m.multiply_accumulate(acc, self.taps[k], self.hist[idx]);
            proof {
                assert(self.hist@[idx as int] == xs[k as int]);
                assert(mac_gives(*m, acc, self.taps@[k as int], xs[k as int], next));
                let grown = accs.push(next);
                assert forall|j: int| 0 <= j < k + 1 implies #[trigger] mac_gives(
                    *m,
                    grown[j],
                    self.taps@[j],
                    xs[j],
                    grown[j + 1],
                ) by {
                    if j < k {
                        assert(mac_gives(*m, accs[j], self.taps@[j], xs[j], accs[j + 1]));
                    }
                }
                accs = grown;
            }
            acc = next;
            idx = if idx == 0 {
                taps - 1
            } else {
                idx - 1
            };
            k = k + 1;
        }
        assert(accumulates(*m, self.state().taps, xs, accs));
        acc
    }

    /// Push one input sample; returns the filtered output on every `factor`-th
    /// call.
    pub fn process<M: FilterMath>(&mut self, x: Real32, m: &M) -> (y: Option<Real32>)
        requires
            old(self).well_formed(),
        ensures
            final(self).well_formed(),
            final(self).state() == old(self).state().after(x),
            filters(*m, old(self).state(), x, y),
    {
        let ghost before = self.state();
        self.push(x);
        let ghost history = self.state().history;
        self.phase = self.phase + 1;
        if self.phase < self.factor {
            proof {
                assert(self.state().history =~= history);
                vstd::arithmetic::div_mod::lemma_small_mod(
                    (before.phase + 1) as nat,
                    before.factor,
                );
                assert(self.state() =~= before.after(x));
            }
            return None;
        }
        self.phase = 0;
        proof {
            assert(self.state().history =~= history);
            vstd::arithmetic::div_mod::lemma_mod_self_0(before.factor as int);
            assert(self.state() =~= before.after(x));
        }
        Some(self.dot(m))
    }

    /// Clear the delay line and the decimation phase, for a stream that starts
    /// anew.
    pub fn reset(&mut self)
        requires
            old(self).well_formed(),
        ensures
            final(self).well_formed(),
            final(self).state() == FilterState::start(old(self).state().taps, old(self).state().factor),
    {
        let len: usize = self.hist.len();
        let ghost before = *self;
        let mut k: usize = 0;
        while k < len
            invariant
                k <= len,
                len == self.hist@.len(),
                self.hist@.len() == before.hist@.len(),
                self.taps == before.taps,
                self.factor == before.factor,
                forall|j: int| 0 <= j < k ==> #[trigger] self.hist@[j] == (Real32 { bits: 0 }),
            decreases len - k,
        {
            self.hist[k] = Real32 { bits: 0 };
            k = k + 1;
        }
        self.pos = 0;
        self.phase = 0;
        assert(self.state() =~= FilterState::start(before.state().taps, before.state().factor));
    }
}

/// The state after the inputs `xs`.
pub open spec fn after_all(s: FilterState, xs: Seq<Real32>) -> FilterState
    decreases xs.len(),
{
    if xs.len() == 0 {
        s
    } else {
        after_all(s, xs.drop_last()).after(xs.last())
    }
}

/// `ys` is what filtering `xs` from state `s` gives, input by input.
pub open spec fn filters_all<M: FilterMath>(
    m: M,
    s: FilterState,
    xs: Seq<Real32>,
    ys: Seq<Option<Real32>>,
) -> bool {
    &&& ys.len() == xs.len()
    &&& forall|k: int|
        0 <= k < xs.len() ==> #[trigger] filters(m, after_all(s, xs.take(k)), xs[k], ys[k])
}

/// Going on from where a block left off is the same as filtering it all at once.
pub proof fn after_all_composes(s: FilterState, xs: Seq<Real32>, more: Seq<Real32>)
    ensures
        after_all(s, xs + more) == after_all(after_all(s, xs), more),
    decreases more.len(),
{
    if more.len() == 0 {
        assert(xs + more =~= xs);
    } else {
        after_all_composes(s, xs, more.drop_last());
        assert((xs + more).drop_last() =~= xs + more.drop_last());
    }
}

/// Block boundaries do not restart the filter: filtering one block and then
/// another gives what filtering both at once gives.
pub proof fn filtering_ignores_block_boundaries<M: FilterMath>(
    m: M,
    s: FilterState,
    xs: Seq<Real32>,
    ys: Seq<Option<Real32>>,
    more_xs: Seq<Real32>,
    more_ys: Seq<Option<Real32>>,
)
    requires
        filters_all(m, s, xs, ys),
        filters_all(m, after_all(s, xs), more_xs, more_ys),
    ensures
        filters_all(m, s, xs + more_xs, ys + more_ys),
{
    let all = xs + more_xs;
    assert forall|k: int| 0 <= k < all.len() implies #[trigger] filters(
        m,
        after_all(s, all.take(k)),
        all[k],
        (ys + more_ys)[k],
    ) by {
        if k < xs.len() {
            assert(all.take(k) =~= xs.take(k));
            assert(filters(m, after_all(s, xs.take(k)), xs[k], ys[k]));
        } else {
            let j = k - xs.len();
            assert(all.take(k) =~= xs + more_xs.take(j));
            after_all_composes(s, xs, more_xs.take(j));
            assert(filters(m, after_all(after_all(s, xs), more_xs.take(j)), more_xs[j], more_ys[j]));
        }
    }
}

/// The inputs that were answered with an output.
pub open spec fn emitted(ys: Seq<Option<Real32>>) -> nat
    decreases ys.len(),
{
    if ys.len() == 0 {
        0
    } else {
        emitted(ys.drop_last()) + if ys.last() is Some {
            1nat
        } else {
            0
        }
    }
}

/// After `n` inputs the decimation phase has advanced by `n`, and the taps and
/// the factor are what they were.
pub proof fn lemma_after_all_phase(s: FilterState, xs: Seq<Real32>)
    requires
        s.phase < s.factor,
    ensures
        after_all(s, xs).phase == (s.phase + xs.len()) % s.factor,
        after_all(s, xs).factor == s.factor,
        after_all(s, xs).taps == s.taps,
    decreases xs.len(),
{
    if xs.len() == 0 {
        vstd::arithmetic::div_mod::lemma_small_mod(s.phase, s.factor);
    } else {
        lemma_after_all_phase(s, xs.drop_last());
        let n = (s.phase + xs.len() - 1) as int;
        vstd::arithmetic::div_mod::lemma_add_mod_noop(n, 1, s.factor as int);
        if s.factor > 1 {
            vstd::arithmetic::div_mod::lemma_small_mod(1, s.factor);
        } else {
            vstd::arithmetic::div_mod::lemma_mod_self_0(1);
            assert((n + 1) % 1 == 0);
        }
    }
}

/// Exactly one output comes for every `factor` inputs.
pub proof fn one_output_per_factor_inputs<M: FilterMath>(
    m: M,
    s: FilterState,
    xs: Seq<Real32>,
    ys: Seq<Option<Real32>>,
)
    requires
        s.phase < s.factor,
        filters_all(m, s, xs, ys),
    ensures
        emitted(ys) == (s.phase + xs.len()) / s.factor,
    decreases xs.len(),
{
    if xs.len() == 0 {
        vstd::arithmetic::div_mod::lemma_small_div_converse(s.phase as int, s.factor as int);
        vstd::arithmetic::div_mod::lemma_basic_div(s.phase as int, s.factor as int);
    } else {
        let head = xs.drop_last();
        let n = (s.phase + head.len()) as int;
        let f = s.factor as int;
        assert forall|k: int| 0 <= k < head.len() implies #[trigger] filters(
            m,
            after_all(s, head.take(k)),
            head[k],
            ys.drop_last()[k],
        ) by {
            assert(head.take(k) =~= xs.take(k));
            assert(filters(m, after_all(s, xs.take(k)), xs[k], ys[k]));
        }
        one_output_per_factor_inputs(m, s, head, ys.drop_last());
        lemma_after_all_phase(s, head);
        let last = xs.len() - 1;
        assert(xs.take(last) =~= head);
        assert(filters(m, after_all(s, xs.take(last)), xs[last], ys[last]));
        assert((n + 1) / f == n / f + if n % f + 1 == f {
            1int
        } else {
            0int
        }) by (nonlinear_arith)
            requires
                f > 0,
        ;
    }
}

} // verus!

//! The channelizer: mix one channel to the centre, filter and decimate it.
//!
//! Mixer phase, every stage's delay line and the decimation phase persist for
//! the lifetime of a [`Channelizer`]; none is reset at a packet boundary.

use vstd::prelude::*;
use crate::ieee::{Real32, Real64};
#[allow(unused_imports)]
use crate::ieee::capped;
use super::filter::{FilterMath, FirDecimator};
#[allow(unused_imports)]
use super::filter::{filters, FilterState};
use super::fir::{kaiser_lowpass, FilterDesignMath};
#[allow(unused_imports)]
use super::fir::is_kaiser_lowpass;
use super::iq::{sc16_to_iq, Iq};
#[allow(unused_imports)]
use super::iq::is_normalized;
use super::nco::{Nco, OscillatorMath};
#[allow(unused_imports)]
use super::nco::{is_initial, mixes, Oscillation};
use super::plan::StagePlan;
#[allow(unused_imports)]
use super::plan::factor_product;

verus! {

/// The filters of one stage.
#[verifier::ext_equal]
pub struct StageState {
    /// Filter of the in-phase component.
    pub i: FilterState,
    /// Filter of the quadrature component.
    pub q: FilterState,
}

impl StageState {
    /// The state after one more input `v`.
    pub open spec fn after(self, v: Iq) -> StageState {
        StageState { i: self.i.after(v.i), q: self.q.after(v.q) }
    }

    /// Both filters are valid and advance in lockstep.
    pub open spec fn lockstep(self) -> bool {
        &&& self.i.valid()
        &&& self.q.valid()
        &&& self.i.taps == self.q.taps
        &&& self.i.factor == self.q.factor
        &&& self.i.phase == self.q.phase
    }
}

/// The state of a channelizer.
#[verifier::ext_equal]
pub struct ChannelState {
    /// The mixer.
    pub osc: Oscillation,
    /// The stages, in order.
    pub stages: Seq<StageState>,
}

impl ChannelState {
    /// Every stage is in lockstep.
    pub open spec fn valid(self) -> bool {
        forall|k: int| 0 <= k < self.stages.len() ==> (#[trigger] self.stages[k]).lockstep()
    }
}

/// Stage `s` turns input `v` into output `w`.
pub open spec fn stage_emits<M: FilterMath>(m: M, s: StageState, v: Iq, w: Iq) -> bool {
    filters(m, s.i, v.i, Some(w.i)) && filters(m, s.q, v.q, Some(w.q))
}

/// Stage `s` takes input `v` without an output.
pub open spec fn stage_absorbs<M: FilterMath>(m: M, s: StageState, v: Iq) -> bool {
    filters(m, s.i, v.i, None) && filters(m, s.q, v.q, None)
}

/// A sample runs down the cascade `ss` and takes the values `vs` on its way: each
/// stage either passes a value on to the next or absorbs it. `ts` are the stages
/// afterwards, and `y` is what leaves the last one.
pub open spec fn cascades<M: FilterMath>(
    m: M,
    ss: Seq<StageState>,
    vs: Seq<Iq>,
    ts: Seq<StageState>,
    y: Option<Iq>,
) -> bool {
    let depth = vs.len() - 1;
    &&& 0 <= depth <= ss.len()
    &&& forall|k: int| 0 <= k < depth ==> #[trigger] stage_emits(m, ss[k], vs[k], vs[k + 1])
    &&& depth < ss.len() ==> stage_absorbs(m, ss[depth], vs[depth])
    &&& ts.len() == ss.len()
    &&& forall|k: int|
        0 <= k < ss.len() ==> #[trigger] ts[k] == if k <= depth {
            ss[k].after(vs[k])
        } else {
            ss[k]
        }
    &&& y == if depth == ss.len() {
        Some(vs[depth])
    } else {
        None
    }
}

/// One sample `x` through mixer and cascade takes state `s` to `t` and gives `y`.
pub open spec fn steps<M: OscillatorMath + FilterMath>(
    m: M,
    s: ChannelState,
    x: Iq,
    t: ChannelState,
    y: Option<Iq>,
) -> bool {
    exists|vs: Seq<Iq>| #[trigger]
        cascades(m, s.stages, vs, t.stages, y) && mixes(m, s.osc, x, t.osc, vs[0])
}

/// `states` are the states of a channelizer that takes `xs` to `ys`, from before
/// the first sample to after the last.
pub open spec fn runs<M: OscillatorMath + FilterMath>(
    m: M,
    states: Seq<ChannelState>,
    xs: Seq<Iq>,
    ys: Seq<Option<Iq>>,
) -> bool {
    &&& states.len() == xs.len() + 1
    &&& ys.len() == xs.len()
    &&& forall|k: int|
        0 <= k < xs.len() ==> #[trigger] steps(m, states[k], xs[k], states[k + 1], ys[k])
}

/// What came out, in order.
pub open spec fn outputs(ys: Seq<Option<Iq>>) -> Seq<Iq>
    decreases ys.len(),
{
    if ys.len() == 0 {
        seq![]
    } else {
        match ys.last() {
            Some(y) => outputs(ys.drop_last()).push(y),
            None => outputs(ys.drop_last()),
        }
    }
}

/// Running `xs` from `s` to `t` produces `out`.
pub open spec fn produces<M: OscillatorMath + FilterMath>(
    m: M,
    s: ChannelState,
    xs: Seq<Iq>,
    t: ChannelState,
    out: Seq<Iq>,
) -> bool {
    exists|states: Seq<ChannelState>, ys: Seq<Option<Iq>>| #[trigger]
        runs(m, states, xs, ys) && states[0] == s && states.last() == t && out == outputs(ys)
}

/// Product of the factors of a cascade: inputs per output.
pub open spec fn period(ss: Seq<StageState>) -> nat
    decreases ss.len(),
{
    if ss.len() == 0 {
        1
    } else {
        ss[0].i.factor * period(ss.skip(1))
    }
}

/// Inputs that a cascade has taken since its last output.
pub open spec fn position(ss: Seq<StageState>) -> nat
    decreases ss.len(),
{
    if ss.len() == 0 {
        0
    } else {
        ss[0].i.phase + ss[0].i.factor * position(ss.skip(1))
    }
}

/// Inputs since the last output are always fewer than the inputs per output.
pub proof fn position_is_below_period(ss: Seq<StageState>)
    requires
        forall|k: int| 0 <= k < ss.len() ==> (#[trigger] ss[k]).lockstep(),
    ensures
        position(ss) < period(ss),
    decreases ss.len(),
{
    if ss.len() > 0 {
        let rest = ss.skip(1);
        assert forall|k: int| 0 <= k < rest.len() implies (#[trigger] rest[k]).lockstep() by {
            assert(rest[k] == ss[k + 1]);
        }
        position_is_below_period(rest);
        assert(ss[0].lockstep());
        let f = ss[0].i.factor as int;
        let ph = ss[0].i.phase as int;
        let p = position(rest) as int;
        let d = period(rest) as int;
        assert(ph + f * p < f * d) by (nonlinear_arith)
            requires
                0 <= ph < f,
                p < d,
        ;
    }
}

/// One sample advances the position of a cascade by one, and an output comes
/// exactly when the position completes the period.
pub proof fn lemma_cascade_position<M: FilterMath>(
    m: M,
    ss: Seq<StageState>,
    vs: Seq<Iq>,
    ts: Seq<StageState>,
    y: Option<Iq>,
)
    requires
        forall|k: int| 0 <= k < ss.len() ==> (#[trigger] ss[k]).lockstep(),
        cascades(m, ss, vs, ts, y),
    ensures
        period(ts) == period(ss),
        y is Some <==> position(ss) + 1 == period(ss),
        position(ts) == if y is Some {
            0
        } else {
            position(ss) + 1
        },
    decreases ss.len(),
{
    if ss.len() > 0 {
        let rest = ss.skip(1);
        let left = ts.skip(1);
        let depth = vs.len() - 1;
        assert forall|k: int| 0 <= k < rest.len() implies (#[trigger] rest[k]).lockstep() by {
            assert(rest[k] == ss[k + 1]);
        }
        position_is_below_period(rest);
        assert(ss[0].lockstep());
        assert(ts[0] == ss[0].after(vs[0]));
        let f = ss[0].i.factor as int;
        let ph = ss[0].i.phase as int;
        let p = position(rest) as int;
        let d = period(rest) as int;
        if ss[0].i.emits() {
            assert(depth >= 1);
            assert(stage_emits(m, ss[0], vs[0], vs[1]));
            let us = vs.skip(1);
            assert forall|k: int| 0 <= k < us.len() - 1 implies #[trigger] stage_emits(
                m,
                rest[k],
                us[k],
                us[k + 1],
            ) by {
                assert(stage_emits(m, ss[k + 1], vs[k + 1], vs[(k + 1) + 1]));
            }
            assert forall|k: int| 0 <= k < rest.len() implies #[trigger] left[k] == if k
                <= us.len() - 1 {
                rest[k].after(us[k])
            } else {
                rest[k]
            } by {
                assert(ts[k + 1] == if k + 1 <= depth {
                    ss[k + 1].after(vs[k + 1])
                } else {
                    ss[k + 1]
                });
            }
            assert(cascades(m, rest, us, left, y));
            lemma_cascade_position(m, rest, us, left, y);
            vstd::arithmetic::div_mod::lemma_mod_self_0(f);
            assert(ts[0].i.phase == 0);
            assert(ph + f * p + 1 == f * (p + 1)) by (nonlinear_arith)
                requires
                    ph + 1 == f,
            ;
            assert(f * (p + 1) == f * d <==> p + 1 == d) by (nonlinear_arith)
                requires
                    f > 0,
            ;
            if y is Some {
                assert(f * 0 == 0) by (nonlinear_arith);
            }
        } else {
            assert(depth == 0) by {
                if depth > 0 {
                    assert(stage_emits(m, ss[0], vs[0], vs[1]));
                }
            }
            assert(left =~= rest) by {
                assert forall|k: int| 0 <= k < rest.len() implies left[k] == rest[k] by {
                    assert(ts[k + 1] == ss[k + 1]);
                }
            }
            vstd::arithmetic::div_mod::lemma_small_mod((ph + 1) as nat, f as nat);
            assert(ph + f * p + 1 < f * d) by (nonlinear_arith)
                requires
                    0 <= ph,
                    ph + 1 < f,
                    p < d,
            ;
        }
    }
}

/// Whatever a channelizer has been fed, its filters are still in lockstep.
pub proof fn lemma_steps_valid<M: OscillatorMath + FilterMath>(
    m: M,
    s: ChannelState,
    x: Iq,
    t: ChannelState,
    y: Option<Iq>,
)
    requires
        s.valid(),
        steps(m, s, x, t, y),
    ensures
        t.valid(),
        t.stages.len() == s.stages.len(),
        period(t.stages) == period(s.stages),
        y is Some <==> position(s.stages) + 1 == period(s.stages),
        position(t.stages) == if y is Some {
            0
        } else {
            position(s.stages) + 1
        },
{
    let vs = choose|vs: Seq<Iq>| #[trigger]
        cascades(m, s.stages, vs, t.stages, y) && mixes(m, s.osc, x, t.osc, vs[0]);
    lemma_cascade_position(m, s.stages, vs, t.stages, y);
    assert forall|k: int| 0 <= k < t.stages.len() implies (#[trigger] t.stages[k]).lockstep() by {
        assert(s.stages[k].lockstep());
        let f = s.stages[k].i.factor as int;
        vstd::arithmetic::div_mod::lemma_mod_bound((s.stages[k].i.phase + 1) as int, f);
    }
}

/// Decimation is exact: `n` inputs give one output for each time the inputs per
/// output are completed, counting on from where the cascade stood.
pub proof fn decimation_is_exact<M: OscillatorMath + FilterMath>(
    m: M,
    states: Seq<ChannelState>,
    xs: Seq<Iq>,
    ys: Seq<Option<Iq>>,
)
    requires
        runs(m, states, xs, ys),
        states[0].valid(),
    ensures
        states.last().valid(),
        period(states.last().stages) == period(states[0].stages),
        outputs(ys).len() == (position(states[0].stages) + xs.len()) / period(states[0].stages),
        position(states.last().stages) == (position(states[0].stages) + xs.len()) % period(
            states[0].stages,
        ),
        states.last().stages.len() == states[0].stages.len(),
    decreases xs.len(),
{
    let d = period(states[0].stages);
    position_is_below_period(states[0].stages);
    if xs.len() == 0 {
        vstd::arithmetic::div_mod::lemma_basic_div(position(states[0].stages) as int, d as int);
        vstd::arithmetic::div_mod::lemma_small_mod(position(states[0].stages), d);
    } else {
        let n = xs.len() - 1;
        let s = states[n];
        assert(steps(m, states[n], xs[n], states[n + 1], ys[n]));
        let fewer = states.drop_last();
        assert forall|k: int| 0 <= k < n implies #[trigger] steps(
            m,
            fewer[k],
            xs.drop_last()[k],
            fewer[k + 1],
            ys.drop_last()[k],
        ) by {
            assert(steps(m, states[k], xs[k], states[k + 1], ys[k]));
        }
        decimation_is_exact(m, fewer, xs.drop_last(), ys.drop_last());
        lemma_steps_valid(m, s, xs[n], states[n + 1], ys[n]);
        let a = position(states[0].stages) + n;
        let e = d as int;
        lemma_div_step(a, e);
    }
}

/// Counting on by one either completes a group of `e` or leaves the number of
/// complete groups alone.
proof fn lemma_div_step(a: int, e: int)
    requires
        e > 0,
        a >= 0,
    ensures
        a % e + 1 == e ==> (a + 1) / e == a / e + 1 && (a + 1) % e == 0,
        a % e + 1 != e ==> (a + 1) / e == a / e && (a + 1) % e == a % e + 1,
{
    let q = a / e;
    let r = a % e;
    vstd::arithmetic::div_mod::lemma_fundamental_div_mod(a, e);
    vstd::arithmetic::div_mod::lemma_mod_bound(a, e);
    vstd::arithmetic::mul::lemma_mul_is_commutative(e, q);
    if r + 1 == e {
        assert(a + 1 == (q + 1) * e + 0) by (nonlinear_arith)
            requires
                a == q * e + r,
                r + 1 == e,
        ;
        vstd::arithmetic::div_mod::lemma_fundamental_div_mod_converse(a + 1, e, q + 1, 0);
    } else {
        vstd::arithmetic::div_mod::lemma_fundamental_div_mod_converse(a + 1, e, q, r + 1);
    }
}

/// What one block produces, followed by what the next produces, is what both
/// produce together.
pub proof fn outputs_append(ys: Seq<Option<Iq>>, more: Seq<Option<Iq>>)
    ensures
        outputs(ys + more) == outputs(ys) + outputs(more),
    decreases more.len(),
{
    if more.len() == 0 {
        assert(ys + more =~= ys);
        assert(outputs(ys) + outputs(more) =~= outputs(ys));
    } else {
        outputs_append(ys, more.drop_last());
        assert((ys + more).drop_last() =~= ys + more.drop_last());
        assert(outputs(ys + more) =~= outputs(ys) + outputs(more));
    }
}

/// Packet sizes do not matter: identical input cut at different block boundaries
/// gives identical output.
pub proof fn output_ignores_block_boundaries<M: OscillatorMath + FilterMath>(
    m: M,
    s: ChannelState,
    xs: Seq<Iq>,
    u: ChannelState,
    out: Seq<Iq>,
    more_xs: Seq<Iq>,
    t: ChannelState,
    more_out: Seq<Iq>,
)
    requires
        produces(m, s, xs, u, out),
        produces(m, u, more_xs, t, more_out),
    ensures
        produces(m, s, xs + more_xs, t, out + more_out),
{
    let (first, ys) = choose|states: Seq<ChannelState>, ys: Seq<Option<Iq>>| #[trigger]
        runs(m, states, xs, ys) && states[0] == s && states.last() == u && out == outputs(ys);
    let (second, more_ys) = choose|states: Seq<ChannelState>, ys: Seq<Option<Iq>>| #[trigger]
        runs(m, states, more_xs, ys) && states[0] == u && states.last() == t && more_out == outputs(ys);
    let states = first.drop_last() + second;
    let all = ys + more_ys;
    assert forall|k: int| 0 <= k < xs.len() + more_xs.len() implies #[trigger] steps(
        m,
        states[k],
        (xs + more_xs)[k],
        states[k + 1],
        all[k],
    ) by {
        if k < xs.len() {
            assert(steps(m, first[k], xs[k], first[k + 1], ys[k]));
        } else {
            let j = k - xs.len();
            assert(steps(m, second[j], more_xs[j], second[j + 1], more_ys[j]));
        }
    }
    assert(runs(m, states, xs + more_xs, all));
    outputs_append(ys, more_ys);
    if xs.len() > 0 {
        assert(states[0] == first[0]);
    }
}

/// One stage's filters, advanced in lockstep.
struct ChannelStage {
    i: FirDecimator,
    q: FirDecimator,
}

impl ChannelStage {
    spec fn state(&self) -> StageState {
        StageState { i: self.i.state(), q: self.q.state() }
    }

    spec fn well_formed(&self) -> bool {
        &&& self.i.well_formed()
        &&& self.q.well_formed()
        &&& self.state().lockstep()
    }

    /// Feed one sample to both filters.
    fn process<M: FilterMath>(&mut self, v: Iq, m: &M) -> (y: Option<Iq>)
        requires
            old(self).well_formed(),
        ensures
            final(self).well_formed(),
            final(self).state() == old(self).state().after(v),
            match y {
                Some(w) => stage_emits(*m, old(self).state(), v, w),
                None => stage_absorbs(*m, old(self).state(), v),
            },
    {
        let ghost before = self.state();
        let yi = self.i.process(v.i, m);
        let yq = self.q.process(v.q, m);
        proof {
            self.i.lemma_valid();
            self.q.lemma_valid();
            assert(self.state() =~= before.after(v));
        }
        match (yi, yq) {
            (Some(i), Some(q)) => Some(Iq { i, q }),
            _ => None,
        }
    }
}

/// A plan that a channelizer can be built from: at least one stage, and every
/// stage with an odd filter, a factor and a positive rate.
pub open spec fn buildable(plan: Seq<StagePlan>) -> bool {
    &&& plan.len() > 0
    &&& forall|k: int|
        0 <= k < plan.len() ==> {
            &&& (#[trigger] plan[k]).factor >= 1
            &&& plan[k].taps >= 3
            &&& plan[k].taps % 2 == 1
            &&& (Real64 { bits: 0 }).less(plan[k].input_rate)
        }
}

/// Whether a channelizer can be built from `plan`.
pub fn is_buildable(plan: &Vec<StagePlan>) -> (r: bool)
    ensures
        r == buildable(plan@),
{
    if plan.len() == 0 {
        return false;
    }
    let mut k: usize = 0;
    while k < plan.len()
        invariant
            k <= plan@.len(),
            forall|j: int|
                0 <= j < k ==> {
                    &&& (#[trigger] plan@[j]).factor >= 1
                    &&& plan@[j].taps >= 3
                    &&& plan@[j].taps % 2 == 1
                    &&& (Real64 { bits: 0 }).less(plan@[j].input_rate)
                },
        decreases plan.len() - k,
    {
        let s: StagePlan = plan[k];
        if s.factor < 1 || s.taps < 3 || s.taps % 2 != 1 || !(Real64 { bits: 0 }).lt(s.input_rate) {
            assert(!({
                &&& plan@[k as int].factor >= 1
                &&& plan@[k as int].taps >= 3
                &&& plan@[k as int].taps % 2 == 1
                &&& (Real64 { bits: 0 }).less(plan@[k as int].input_rate)
            }));
            return false;
        }
        k = k + 1;
    }
    true
}

/// `s` is the fresh stage for a stage plan: both filters with one and the same
/// low-pass design.
pub open spec fn is_fresh_stage<M: FilterDesignMath>(
    m: M,
    plan: StagePlan,
    stopband_db: Real64,
    s: StageState,
) -> bool {
    &&& is_kaiser_lowpass(m, plan.taps, plan.cutoff_hz, plan.input_rate, stopband_db, s.i.taps)
    &&& s.i == FilterState::start(s.i.taps, plan.factor as nat)
    &&& s.q == s.i
}

/// Filter lengths over the rates they run at, in input samples; factors saturate.
pub open spec fn saturated_product(plan: Seq<StagePlan>) -> nat
    decreases plan.len(),
{
    if plan.len() == 0 {
        1
    } else {
        capped(
            saturated_product(plan.drop_last()) * plan.last().factor as nat,
            usize::MAX as nat,
        )
    }
}

/// Input samples until every stage has seen a whole impulse response: each
/// stage's length times the decimation ahead of it.
pub open spec fn settling_of(plan: Seq<StagePlan>) -> nat
    decreases plan.len(),
{
    if plan.len() == 0 {
        0
    } else {
        settling_of(plan.drop_last()) + plan.last().taps as nat * saturated_product(plan.drop_last())
    }
}

proof fn lemma_settling_grows(plan: Seq<StagePlan>, k: int)
    requires
        0 <= k <= plan.len(),
    ensures
        settling_of(plan.take(k)) <= settling_of(plan),
    decreases plan.len() - k,
{
    if k < plan.len() {
        lemma_settling_grows(plan, k + 1);
        assert(plan.take(k + 1).drop_last() =~= plan.take(k));
        let t = plan[k].taps as nat;
        let c = saturated_product(plan.take(k));
        assert(t * c >= 0) by (nonlinear_arith);
    } else {
        assert(plan.take(k) =~= plan);
    }
}

proof fn lemma_product_grows(plan: Seq<StagePlan>, k: int)
    requires
        0 <= k <= plan.len(),
        forall|j: int| 0 <= j < plan.len() ==> (#[trigger] plan[j]).factor >= 1,
    ensures
        1 <= factor_product(plan.take(k)) <= factor_product(plan),
    decreases plan.len() - k,
{
    lemma_product_is_positive(plan, k);
    if k < plan.len() {
        lemma_product_grows(plan, k + 1);
        assert(plan.take(k + 1).drop_last() =~= plan.take(k));
        let a = factor_product(plan.take(k));
        let f = plan[k].factor as nat;
        assert(a * f >= a) by (nonlinear_arith)
            requires
                f >= 1,
        ;
    } else {
        assert(plan.take(k) =~= plan);
    }
}

proof fn lemma_product_is_positive(plan: Seq<StagePlan>, k: int)
    requires
        0 <= k <= plan.len(),
        forall|j: int| 0 <= j < plan.len() ==> (#[trigger] plan[j]).factor >= 1,
    ensures
        factor_product(plan.take(k)) >= 1,
    decreases k,
{
    if k > 0 {
        lemma_product_is_positive(plan, k - 1);
        assert(plan.take(k).drop_last() =~= plan.take(k - 1));
        let a = factor_product(plan.take(k - 1));
        let f = plan[k - 1].factor as nat;
        assert(a * f >= 1) by (nonlinear_arith)
            requires
                a >= 1,
                f >= 1,
        ;
    } else {
        assert(plan.take(0) =~= seq![]);
    }
}

/// Mix one channel to the centre, filter, and decimate to the output rate.
pub struct Channelizer {
    nco: Nco,
    stages: Vec<ChannelStage>,
    plan: Vec<StagePlan>,
    output_rate: Real64,
}

impl Channelizer {
    /// The state that contracts speak of.
    pub closed spec fn state(&self) -> ChannelState {
        ChannelState {
            osc: self.nco.state(),
            stages: Seq::new(self.stages@.len(), |k: int| self.stages@[k].state()),
        }
    }

    /// The stage plan.
    pub closed spec fn plan_view(&self) -> Seq<StagePlan> {
        self.plan@
    }

    /// Every stage is in order, there is one per planned stage, and each
    /// decimates as planned.
    pub closed spec fn well_formed(&self) -> bool {
        &&& buildable(self.plan@)
        &&& self.stages@.len() == self.plan@.len()
        &&& self.output_rate == self.plan@.last().output_rate
        &&& forall|k: int| 0 <= k < self.stages@.len() ==> (#[trigger] self.stages@[k]).well_formed()
        &&& forall|k: int|
            0 <= k < self.stages@.len() ==> (#[trigger] self.stages@[k]).state().i.factor
                == self.plan@[k].factor
    }

    /// What is true of every well-formed channelizer: its filters are in
    /// lockstep, and it takes as many inputs per output as its plan says.
    pub proof fn lemma_well_formed(&self)
        requires
            self.well_formed(),
        ensures
            self.state().valid(),
            buildable(self.plan_view()),
            self.state().stages.len() == self.plan_view().len(),
            period(self.state().stages) == factor_product(self.plan_view()),
    {
        assert forall|k: int| 0 <= k < self.state().stages.len() implies (
        #[trigger] self.state().stages[k]).lockstep() by {
            assert(self.stages@[k].well_formed());
        }
        let ss = self.state().stages;
        assert forall|k: int| 0 <= k < ss.len() implies (#[trigger] ss[k]).i.factor
            == self.plan@[k].factor by {
            assert(self.stages@[k].state().i.factor == self.plan@[k].factor);
        }
        lemma_period_is_product(ss, self.plan@);
    }

    /// Build a channelizer from a stage plan. `offset_hz` is the channel centre
    /// relative to the wideband centre and may be negative.
    pub fn new<M: OscillatorMath + FilterDesignMath>(
        plan: Vec<StagePlan>,
        offset_hz: Real64,
        input_rate: Real64,
        stopband_db: Real64,
        m: &M,
    ) -> (c: Self)
        requires
            buildable(plan@),
        ensures
            c.well_formed(),
            c.plan_view() == plan@,
            is_initial(*m, offset_hz, input_rate, c.state().osc),
            c.state().stages.len() == plan@.len(),
            forall|k: int|
                0 <= k < plan@.len() ==> is_fresh_stage(
                    *m,
                    plan@[k],
                    stopband_db,
                    #[trigger] c.state().stages[k],
                ),
            position(c.state().stages) == 0,
    {
        let mut stages: Vec<ChannelStage> = Vec::new();
        let mut k: usize = 0;
        while k < plan.len()
            invariant
                k <= plan@.len(),
                buildable(plan@),
                stages@.len() == k,
                forall|j: int| 0 <= j < k ==> (#[trigger] stages@[j]).well_formed(),
                forall|j: int|
                    0 <= j < k ==> is_fresh_stage(
                        *m,
                        plan@[j],
                        stopband_db,
                        (#[trigger] stages@[j]).state(),
                    ),
            decreases plan.len() - k,
        {
            let s: StagePlan = plan[k];
            let taps = kaiser_lowpass(s.taps, s.cutoff_hz, s.input_rate, stopband_db, m);
            let copy = copy_taps(&taps);
            let stage = ChannelStage {
                i: FirDecimator::new(copy, s.factor),
                q: FirDecimator::new(taps, s.factor),
            };
            proof {
                stage.i.lemma_valid();
                stage.q.lemma_valid();
            }
            stages.push(stage);
            k = k + 1;
        }
        let output_rate = plan[plan.len() - 1].output_rate;
        let nco = Nco::new(offset_hz, input_rate, m);
        let c = Channelizer { nco, stages, plan, output_rate };
        proof {
            assert forall|k: int| 0 <= k < c.stages@.len() implies (
            #[trigger] c.stages@[k]).state().i.factor == c.plan@[k].factor by {
                assert(is_fresh_stage(*m, plan@[k], stopband_db, stages@[k].state()));
            }
            let ss = c.state().stages;
            assert forall|k: int| 0 <= k < ss.len() implies (#[trigger] ss[k]).i.phase == 0 by {
                assert(is_fresh_stage(*m, plan@[k], stopband_db, stages@[k].state()));
            }
            lemma_fresh_position(ss);
        }
        c
    }

    /// The stage plan, in order.
    pub fn plan(&self) -> (p: &[StagePlan])
        ensures
            p@ == self.plan_view(),
    {
        self.plan.as_slice()
    }

    /// Narrowband output sample rate.
    pub fn output_rate(&self) -> (r: Real64)
        requires
            self.well_formed(),
        ensures
            r == self.plan_view().last().output_rate,
    {
        self.output_rate
    }

    /// Total decimation factor.
    pub fn decimation(&self) -> (d: usize)
        requires
            self.well_formed(),
            factor_product(self.plan_view()) <= usize::MAX,
        ensures
            d == factor_product(self.plan_view()),
            d >= 1,
    {
        match total_decimation(&self.plan) {
            Some(d) => d,
            None => 1,
        }
    }

    /// Input samples that the chain needs before its output is the steady-state
    /// response.
    pub fn settling_samples(&self) -> (n: usize)
        requires
            settling_of(self.plan_view()) <= usize::MAX,
        ensures
            n == settling_of(self.plan_view()),
    {
        match total_settling(&self.plan) {
            Some(n) => n,
            None => 0,
        }
    }

    /// Input samples taken since the last output sample.
    pub fn pending_inputs(&self) -> (n: usize)
        requires
            self.well_formed(),
            factor_product(self.plan_view()) <= usize::MAX,
        ensures
            n == position(self.state().stages),
            n < factor_product(self.plan_view()),
    {
        let ghost ss = self.state().stages;
        proof {
            self.lemma_well_formed();
        }
        let mut pos: usize = 0;
        let mut k: usize = self.stages.len();
        assert(ss.skip(k as int) =~= seq![]);
        while k > 0
            invariant
                self.well_formed(),
                ss == self.state().stages,
                self.state().valid(),
                k <= self.stages@.len(),
                ss.len() == self.stages@.len(),
                pos == position(ss.skip(k as int)),
                period(ss) <= usize::MAX,
            decreases k,
        {
            k = k - 1;
            proof {
                lemma_tail_position(ss, k as int);
                assert(ss[k as int].lockstep());
                assert(self.stages@[k as int].state().i.factor == self.plan@[k as int].factor);
                assert(ss.skip(k as int).skip(1) =~= ss.skip(k + 1));
            }
            let f: usize = self.plan[k].factor;
            proof {
                let p = pos as int;
                assert(f * p >= 0) by (nonlinear_arith)
                    requires
                        p >= 0,
                ;
            }
            pos = self.stages[k].i.phase() + f * pos;
        }
        proof {
            assert(ss.skip(0) =~= ss);
            position_is_below_period(ss);
        }
        pos
    }

    /// One sample through mixer and cascade.
    fn process_sample<M: OscillatorMath + FilterMath>(&mut self, sample: Iq, m: &M) -> (y: Option<Iq>)
        requires
            old(self).well_formed(),
        ensures
            final(self).well_formed(),
            final(self).plan_view() == old(self).plan_view(),
            steps(*m, old(self).state(), sample, final(self).state(), y),
    {
        let ghost before = self.state();
        let ghost plan = self.plan@;
        let ghost fixed_plan = self.plan;
        let ghost rate = self.output_rate;
        let mut v: Iq = self.nco.mix(sample, m);
        let ghost mut vs: Seq<Iq> = seq![v];
        let ghost osc = self.nco.state();
        assert(self.state().stages =~= before.stages);
        let n: usize = self.stages.len();
        let mut k: usize = 0;
        while k < n
            invariant
                k <= n,
                n == self.stages@.len(),
                n == before.stages.len(),
                before == old(self).state(),
                plan == old(self).plan_view(),
                self.nco.state() == osc,
                self.plan == fixed_plan,
                self.output_rate == rate,
                plan == fixed_plan@,
                buildable(plan),
                n == plan.len(),
                forall|j: int| 0 <= j < n ==> (#[trigger] self.stages@[j]).well_formed(),
                forall|j: int|
                    0 <= j < n ==> (#[trigger] self.stages@[j]).state().i.factor == plan[j].factor,
                vs.len() == k + 1,
                vs.last() == v,
                mixes(*m, before.osc, sample, osc, vs[0]),
                forall|j: int|
                    0 <= j < k ==> #[trigger] stage_emits(*m, before.stages[j], vs[j], vs[j + 1]),
                forall|j: int|
                    0 <= j < n ==> (#[trigger] self.stages@[j]).state() == if j < k {
                        before.stages[j].after(vs[j])
                    } else {
                        before.stages[j]
                    },
                rate == plan.last().output_rate,
            decreases n - k,
        {
            let ghost mid = self.stages@;
            assert(self.stages@[k as int].well_formed());
            let out = self.stages[k].process(v, m);
            proof {
                assert(self.stages@[k as int].state() == before.stages[k as int].after(v));
                assert forall|j: int| 0 <= j < n && j != k implies (#[trigger] self.stages@[j])
                    == mid[j] by {}
                assert(self.stages@[k as int].state().i.factor == mid[k as int].state().i.factor);
            }
            match out {
                Some(w) => {
                    proof {
                        let grown = vs.push(w);
                        assert forall|j: int| 0 <= j < k + 1 implies #[trigger] stage_emits(
                            *m,
                            before.stages[j],
                            grown[j],
                            grown[j + 1],
                        ) by {
                            if j < k {
                                assert(stage_emits(*m, before.stages[j], vs[j], vs[j + 1]));
                            }
                        }
                        assert forall|j: int| 0 <= j < n implies (#[trigger] self.stages@[j]).state()
                            == if j < k + 1 {
                            before.stages[j].after(grown[j])
                        } else {
                            before.stages[j]
                        } by {
                            if j != k {
                                assert(self.stages@[j] == mid[j]);
                            }
                        }
                        vs = grown;
                    }
                    v = w;
                },
                None => {
                    proof {
                        let ts = self.state().stages;
                        assert forall|j: int| 0 <= j < n implies #[trigger] ts[j] == if j
                            <= vs.len() - 1 {
                            before.stages[j].after(vs[j])
                        } else {
                            before.stages[j]
                        } by {
                            if j != k {
                                assert(self.stages@[j] == mid[j]);
                            }
                        }
                        assert(cascades(*m, before.stages, vs, ts, None));
                    }
                    return None;
                },
            }
            k = k + 1;
        }
        proof {
            let ts = self.state().stages;
            assert forall|j: int| 0 <= j < n implies #[trigger] ts[j] == if j <= vs.len() - 1 {
                before.stages[j].after(vs[j])
            } else {
                before.stages[j]
            } by {
                assert(self.stages@[j].state() == before.stages[j].after(vs[j]));
            }
            assert(cascades(*m, before.stages, vs, ts, Some(v)));
        }
        Some(v)
    }

    /// Run normalized samples through the chain, appending the surviving
    /// narrowband samples to `out`.
    pub fn process_iq<M: OscillatorMath + FilterMath>(&mut self, iq: &[Iq], out: &mut Vec<Iq>, m: &M)
        requires
            old(self).well_formed(),
        ensures
            final(self).well_formed(),
            final(self).plan_view() == old(self).plan_view(),
            old(out)@.is_prefix_of(final(out)@),
            produces(
                *m,
                old(self).state(),
                iq@,
                final(self).state(),
                final(out)@.skip(old(out)@.len() as int),
            ),
            final(out)@.len() == old(out)@.len() + (position(old(self).state().stages) + iq@.len())
                / factor_product(old(self).plan_view()),
            position(final(self).state().stages) == (position(old(self).state().stages) + iq@.len())
                % factor_product(old(self).plan_view()),
    {
        let ghost start = self.state();
        let ghost plan = self.plan_view();
        let ghost head = out@;
        let ghost mut states: Seq<ChannelState> = seq![start];
        let ghost mut ys: Seq<Option<Iq>> = seq![];
        proof {
            self.lemma_well_formed();
            assert(head + outputs(ys) =~= head);
        }
        let mut k: usize = 0;
        while k < iq.len()
            invariant
                k <= iq@.len(),
                self.well_formed(),
                self.plan_view() == plan,
                states[0] == start,
                states.last() == self.state(),
                runs(*m, states, iq@.take(k as int), ys),
                out@ == head + outputs(ys),
            decreases iq.len() - k,
        {
            let ghost before = self.state();
            let y = self.process_sample(iq[k], m);
            proof {
                let more_states = states.push(self.state());
                let more_ys = ys.push(y);
                let seen = iq@.take(k + 1);
                assert forall|j: int| 0 <= j < seen.len() implies #[trigger] steps(
                    *m,
                    more_states[j],
                    seen[j],
                    more_states[j + 1],
                    more_ys[j],
                ) by {
                    if j < k {
                        assert(steps(
                            *m,
                            states[j],
                            iq@.take(k as int)[j],
                            states[j + 1],
                            ys[j],
                        ));
                    }
                }
                assert(more_ys.drop_last() =~= ys);
                states = more_states;
                ys = more_ys;
            }
            if let Some(v) = y {
                out.push(v);
            }
            assert(out@ =~= head + outputs(ys));
            k = k + 1;
        }
        proof {
            assert(iq@.take(k as int) =~= iq@);
            assert(out@.skip(head.len() as int) =~= outputs(ys));
            decimation_is_exact(*m, states, iq@, ys);
        }
    }

    /// Run interleaved sc16 wideband samples through the chain, appending the
    /// surviving narrowband samples to `out`. A trailing unpaired element is
    /// ignored.
    pub fn process<M: OscillatorMath + FilterMath>(
        &mut self,
        interleaved_sc16: &[i16],
        out: &mut Vec<Iq>,
        m: &M,
    )
        requires
            old(self).well_formed(),
        ensures
            final(self).well_formed(),
            final(self).plan_view() == old(self).plan_view(),
            old(out)@.is_prefix_of(final(out)@),
            channelizes(
                *m,
                old(self).state(),
                interleaved_sc16@,
                final(self).state(),
                final(out)@.skip(old(out)@.len() as int),
            ),
            final(out)@.len() == old(out)@.len() + (position(old(self).state().stages)
                + interleaved_sc16@.len() / 2) / factor_product(old(self).plan_view()),
            position(final(self).state().stages) == (position(old(self).state().stages)
                + interleaved_sc16@.len() / 2) % factor_product(old(self).plan_view()),
    {
        let iq = sc16_to_iq(interleaved_sc16);
        assert(are_samples_of(iq@, interleaved_sc16@));
        self.process_iq(iq.as_slice(), out, m);
    }
}

/// `iq` are the normalized samples of interleaved sc16 components.
pub open spec fn are_samples_of(iq: Seq<Iq>, interleaved: Seq<i16>) -> bool {
    &&& iq.len() == interleaved.len() / 2
    &&& forall|k: int|
        0 <= k < iq.len() ==> is_normalized((#[trigger] iq[k]).i, interleaved[2 * k] as int)
            && is_normalized(iq[k].q, interleaved[2 * k + 1] as int)
}

/// Running the samples of interleaved sc16 components from `s` to `t` produces
/// `out`.
pub open spec fn channelizes<M: OscillatorMath + FilterMath>(
    m: M,
    s: ChannelState,
    interleaved: Seq<i16>,
    t: ChannelState,
    out: Seq<Iq>,
) -> bool {
    exists|iq: Seq<Iq>| #[trigger] are_samples_of(iq, interleaved) && produces(m, s, iq, t, out)
}

/// Total decimation of a plan, or `None` where it does not fit in a `usize`.
pub fn total_decimation(plan: &Vec<StagePlan>) -> (r: Option<usize>)
    requires
        forall|k: int| 0 <= k < plan@.len() ==> (#[trigger] plan@[k]).factor >= 1,
    ensures
        match r {
            Some(d) => d == factor_product(plan@) && d >= 1,
            None => factor_product(plan@) > usize::MAX,
        },
{
    let mut d: usize = 1;
    let mut k: usize = 0;
    while k < plan.len()
        invariant
            k <= plan@.len(),
            d == factor_product(plan@.take(k as int)),
            forall|j: int| 0 <= j < plan@.len() ==> (#[trigger] plan@[j]).factor >= 1,
        decreases plan.len() - k,
    {
        proof {
            assert(plan@.take(k + 1).drop_last() =~= plan@.take(k as int));
            lemma_product_grows(plan@, k + 1);
        }
        match d.checked_mul(plan[k].factor) {
            Some(next) => {
                d = next;
            },
            None => {
                return None;
            },
        }
        k = k + 1;
    }
    proof {
        assert(plan@.take(k as int) =~= plan@);
        lemma_product_is_positive(plan@, k as int);
    }
    Some(d)
}

/// Settling time of a plan in input samples, or `None` where it does not fit in
/// a `usize`.
pub fn total_settling(plan: &Vec<StagePlan>) -> (r: Option<usize>)
    ensures
        match r {
            Some(n) => n == settling_of(plan@),
            None => settling_of(plan@) > usize::MAX,
        },
{
    let mut cum: usize = 1;
    let mut total: usize = 0;
    let mut k: usize = 0;
    while k < plan.len()
        invariant
            k <= plan@.len(),
            cum == saturated_product(plan@.take(k as int)),
            total == settling_of(plan@.take(k as int)),
        decreases plan.len() - k,
    {
        proof {
            assert(plan@.take(k + 1).drop_last() =~= plan@.take(k as int));
            lemma_settling_grows(plan@, k + 1);
        }
        let s: StagePlan = plan[k];
        match s.taps.checked_mul(cum) {
            Some(own) => match total.checked_add(own) {
                Some(sum) => {
                    total = sum;
                },
                None => {
                    return None;
                },
            },
            None => {
                return None;
            },
        }
        cum = match cum.checked_mul(s.factor) {
            Some(next) => next,
            None => usize::MAX,
        };
        k = k + 1;
    }
    assert(plan@.take(k as int) =~= plan@);
    Some(total)
}

/// The same taps once more.
fn copy_taps(taps: &Vec<Real32>) -> (copy: Vec<Real32>)
    ensures
        copy@ == taps@,
{
    let mut copy: Vec<Real32> = Vec::new();
    copy.extend_from_slice(taps.as_slice());
    assert(copy@ =~= taps@);
    copy
}

/// The position of the later stages of a cascade is below its whole period.
proof fn lemma_tail_position(ss: Seq<StageState>, k: int)
    requires
        0 <= k <= ss.len(),
        forall|j: int| 0 <= j < ss.len() ==> (#[trigger] ss[j]).lockstep(),
    ensures
        position(ss.skip(k)) < period(ss.skip(k)) <= period(ss),
    decreases k,
{
    let tail = ss.skip(k);
    assert forall|j: int| 0 <= j < tail.len() implies (#[trigger] tail[j]).lockstep() by {
        assert(tail[j] == ss[j + k]);
    }
    position_is_below_period(tail);
    if k == 0 {
        assert(tail =~= ss);
    } else {
        lemma_tail_position(ss, k - 1);
        assert(ss.skip(k - 1).skip(1) =~= tail);
        assert(ss[k - 1].lockstep());
        let f = ss[k - 1].i.factor;
        let d = period(tail);
        assert(f * d >= d) by (nonlinear_arith)
            requires
                f >= 1,
        ;
    }
}

proof fn lemma_fresh_position(ss: Seq<StageState>)
    requires
        forall|k: int| 0 <= k < ss.len() ==> (#[trigger] ss[k]).i.phase == 0,
    ensures
        position(ss) == 0,
    decreases ss.len(),
{
    if ss.len() > 0 {
        let rest = ss.skip(1);
        assert forall|k: int| 0 <= k < rest.len() implies (#[trigger] rest[k]).i.phase == 0 by {
            assert(rest[k] == ss[k + 1]);
        }
        lemma_fresh_position(rest);
        let f = ss[0].i.factor;
        assert(f * 0 == 0) by (nonlinear_arith);
    }
}

proof fn lemma_period_is_product(ss: Seq<StageState>, plan: Seq<StagePlan>)
    requires
        ss.len() == plan.len(),
        forall|k: int| 0 <= k < ss.len() ==> (#[trigger] ss[k]).i.factor == plan[k].factor,
    ensures
        period(ss) == factor_product(plan),
    decreases ss.len(),
{
    if ss.len() > 0 {
        let rest = ss.skip(1);
        let plan_rest = plan.skip(1);
        assert forall|k: int| 0 <= k < rest.len() implies (#[trigger] rest[k]).i.factor
            == plan_rest[k].factor by {
            assert(rest[k] == ss[k + 1]);
        }
        lemma_period_is_product(rest, plan_rest);
        super::plan::lemma_product_first(plan);
        assert(ss[0].i.factor == plan[0].factor);
    }
}

} // verus!

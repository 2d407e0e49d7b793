//! Planning a cascade of decimation stages.
//!
//! Intermediate stages need not be alias-free across their whole output band,
//! only across the final channel: what folds down outside it is removed by the
//! next stage. So every stage passes the channel, and stops at its output rate
//! less the final stopband edge; the last one must stop at the final edge itself.
//! The planner prefers the largest usable factor first, because that keeps later
//! stages at lower rates.

use vstd::prelude::*;
use crate::ieee::Real64;
use crate::message::{render, NumberText, Part};
#[allow(unused_imports)]
use crate::message::reads_as;
use super::fir::{estimate_taps, FilterDesignMath, ONE_BITS};
#[allow(unused_imports)]
use super::fir::is_tap_count;

verus! {

/// Largest decimation factor of a single stage.
pub const MAX_STAGE_FACTOR: usize = 16;

/// Largest deviation of the rate ratio from a whole number: `1e-9`.
pub const RATIO_TOLERANCE_BITS: u64 = 0x3E11_2E0B_E826_D695;

/// Floating-point arithmetic of the planner.
pub trait PlanMath {
    /// `rate / 2`.
    fn nyquist(&self, rate: Real64) -> Real64;

    /// `rate / 2 + 1e-9`.
    fn nyquist_limit(&self, rate: Real64) -> Real64;

    /// `input / output`.
    fn ratio(&self, input: Real64, output: Real64) -> Real64;

    /// `ratio` rounded to the nearest integer.
    fn nearest(&self, ratio: Real64) -> Real64;

    /// `rate / factor`.
    fn stage_rate(&self, rate: Real64, factor: usize) -> Real64;

    /// `a - b`.
    fn difference(&self, a: Real64, b: Real64) -> Real64;

    /// `(a + b) / 2`.
    fn midpoint(&self, a: Real64, b: Real64) -> Real64;
}

/// `d` is what `m` gives for `a - b`.
pub open spec fn difference_gives<M: PlanMath>(m: M, a: Real64, b: Real64, d: Real64) -> bool {
    call_ensures(M::difference, (&m, a, b), d)
}

/// `r` is what `m` gives for `rate / factor`.
pub open spec fn stage_rate_gives<M: PlanMath>(m: M, rate: Real64, factor: usize, r: Real64) -> bool {
    call_ensures(M::stage_rate, (&m, rate, factor), r)
}

/// One decimation stage: filter at `input_rate`, emit at `output_rate`.
#[derive(Debug, Clone, Copy, PartialEq, Eq, Structural)]
pub struct StagePlan {
    /// Inputs per output.
    pub factor: usize,
    /// Rate the stage runs at.
    pub input_rate: Real64,
    /// Rate the stage emits at.
    pub output_rate: Real64,
    /// Midpoint of the transition band.
    pub cutoff_hz: Real64,
    /// Frequency by which the attenuation must be reached.
    pub stopband_hz: Real64,
    /// Filter length.
    pub taps: usize,
}

/// What a cascade has to do.
#[derive(Debug, Clone, Copy, PartialEq, Eq, Structural)]
pub struct PlanRequest {
    /// Rate of the wideband input.
    pub input_rate: Real64,
    /// Rate of the narrowband output.
    pub output_rate: Real64,
    /// Half-width of the channel to preserve.
    pub passband_hz: Real64,
    /// Frequency above which aliases must stay below the channel.
    pub stopband_hz: Real64,
    /// Attenuation target per stage.
    pub stopband_db: Real64,
    /// Longest filter that is accepted.
    pub max_taps: usize,
}

/// Why a factor cannot be used for the next stage.
#[derive(Debug, Clone, Copy, PartialEq, Eq, Structural)]
pub enum StageFailure {
    /// No factor divides what is left of the ratio.
    NoFactor,
    /// The stopband edge would not lie above the passband edge.
    NoTransition { factor: usize, stop: Real64 },
    /// The filter would be too long.
    OverBudget { factor: usize, taps: usize, transition: Real64 },
}

/// Why there is no plan.
#[derive(Debug, Clone, Copy, PartialEq, Eq, Structural)]
pub enum PlanError {
    /// A rate is not positive.
    RatesNotPositive,
    /// The output rate exceeds the input rate.
    OutputAboveInput,
    /// The band edges are not in order.
    BandOrder,
    /// The stopband edge lies above the output Nyquist frequency.
    StopbandAboveNyquist { nyquist: Real64 },
    /// The rate ratio is not a whole number.
    FractionalRatio { ratio: Real64 },
    /// What is left of the ratio cannot be decimated.
    NoStage { remaining: usize, rate: Real64, detail: StageFailure },
}

/// How one factor fares for the next stage.
#[derive(Debug, Clone, Copy, PartialEq, Eq, Structural)]
pub enum Trial {
    /// It can be used.
    Fits(StagePlan),
    /// It cannot.
    Fails(StageFailure),
}

/// `stop` is the stopband edge of a stage that emits at `out`.
pub open spec fn is_stop<M: PlanMath>(m: M, req: PlanRequest, out: Real64, last: bool, stop: Real64) -> bool {
    if last {
        stop == req.stopband_hz
    } else {
        difference_gives(m, out, req.stopband_hz, stop)
    }
}

/// `t` is how a stage with stopband edge `stop` fares.
pub open spec fn is_trial_at<M: PlanMath + FilterDesignMath>(
    m: M,
    req: PlanRequest,
    rate: Real64,
    factor: usize,
    out: Real64,
    stop: Real64,
    t: Trial,
) -> bool {
    if stop.at_most(req.passband_hz) {
        t == Trial::Fails(StageFailure::NoTransition { factor, stop })
    } else {
        exists|transition: Real64, taps: usize, cutoff: Real64|
            #![trigger is_tap_count(m, req.stopband_db, transition, rate, taps), call_ensures(M::midpoint, (&m, req.passband_hz, stop), cutoff)]
            difference_gives(m, stop, req.passband_hz, transition) && is_tap_count(
                m,
                req.stopband_db,
                transition,
                rate,
                taps,
            ) && call_ensures(M::midpoint, (&m, req.passband_hz, stop), cutoff) && taps >= 3 && taps % 2
                == 1 && t == if taps > req.max_taps {
                Trial::Fails(StageFailure::OverBudget { factor, taps, transition })
            } else {
                Trial::Fits(
                    StagePlan {
                        factor,
                        input_rate: rate,
                        output_rate: out,
                        cutoff_hz: cutoff,
                        stopband_hz: stop,
                        taps,
                    },
                )
            }
    }
}

/// `t` is how `factor` fares for a stage at `rate` with `remaining` of the ratio
/// left, which `factor` divides.
pub open spec fn is_trial<M: PlanMath + FilterDesignMath>(
    m: M,
    req: PlanRequest,
    rate: Real64,
    remaining: usize,
    factor: usize,
    t: Trial,
) -> bool {
    exists|out: Real64, stop: Real64|
        #![trigger is_trial_at(m, req, rate, factor, out, stop, t)]
        stage_rate_gives(m, rate, factor, out) && is_stop(
            m,
            req,
            out,
            remaining / factor == 1,
            stop,
        ) && is_trial_at(m, req, rate, factor, out, stop, t)
}

/// See how `factor` fares for the next stage.
fn try_factor<M: PlanMath + FilterDesignMath>(
    req: &PlanRequest,
    rate: Real64,
    remaining: usize,
    factor: usize,
    m: &M,
) -> (t: Trial)
    requires
        factor >= 2,
    ensures
        is_trial(*m, *req, rate, remaining, factor, t),
        t matches Trial::Fits(plan) ==> plan.factor == factor && plan.input_rate == rate && plan.taps
            <= req.max_taps && plan.taps >= 3 && plan.taps % 2 == 1,
{
    let out = m.stage_rate(rate, factor);
    assert(stage_rate_gives(*m, rate, factor, out));
    let stop = if remaining / factor == 1 {
        req.stopband_hz
    } else {
        m.difference(out, req.stopband_hz)
    };
    assert(is_stop(*m, *req, out, remaining / factor == 1, stop));
    if stop.le(req.passband_hz) {
        let t = Trial::Fails(StageFailure::NoTransition { factor, stop });
        assert(is_trial_at(*m, *req, rate, factor, out, stop, t));
        return t;
    }
    let transition = m.difference(stop, req.passband_hz);
    assert(difference_gives(*m, stop, req.passband_hz, transition));
    let taps: usize = estimate_taps(req.stopband_db, transition, rate, m);
    let cutoff = m.midpoint(req.passband_hz, stop);
    assert(call_ensures(M::midpoint, (m, req.passband_hz, stop), cutoff));
    let t = if taps > req.max_taps {
        Trial::Fails(StageFailure::OverBudget { factor, taps, transition })
    } else {
        Trial::Fits(
            StagePlan {
                factor,
                input_rate: rate,
                output_rate: out,
                cutoff_hz: cutoff,
                stopband_hz: stop,
                taps,
            },
        )
    };
    assert(is_trial_at(*m, *req, rate, factor, out, stop, t));
    t
}

/// The factors that are considered with `remaining` of the ratio left.
pub open spec fn is_candidate(remaining: usize, factor: int) -> bool {
    2 <= factor <= MAX_STAGE_FACTOR && factor <= remaining && remaining as int % factor == 0
}

/// `factor` was tried and cannot be used.
pub open spec fn factor_fails<M: PlanMath + FilterDesignMath>(
    m: M,
    req: PlanRequest,
    rate: Real64,
    remaining: usize,
    factor: int,
) -> bool {
    exists|f: StageFailure| #[trigger]
        is_trial(m, req, rate, remaining, factor as usize, Trial::Fails(f))
}

/// `plan` is the next stage: the largest factor that can be used.
pub open spec fn is_choice<M: PlanMath + FilterDesignMath>(
    m: M,
    req: PlanRequest,
    rate: Real64,
    remaining: usize,
    plan: StagePlan,
) -> bool {
    &&& is_candidate(remaining, plan.factor as int)
    &&& is_trial(m, req, rate, remaining, plan.factor, Trial::Fits(plan))
    &&& forall|g: int|
        g > plan.factor && #[trigger] is_candidate(remaining, g) ==> factor_fails(
            m,
            req,
            rate,
            remaining,
            g,
        )
}

/// No factor can be used, and `detail` says why the smallest cannot.
pub open spec fn is_dead_end<M: PlanMath + FilterDesignMath>(
    m: M,
    req: PlanRequest,
    rate: Real64,
    remaining: usize,
    detail: StageFailure,
) -> bool {
    &&& forall|g: int| #[trigger]
        is_candidate(remaining, g) ==> factor_fails(m, req, rate, remaining, g)
    &&& if detail == StageFailure::NoFactor {
        forall|g: int| !#[trigger] is_candidate(remaining, g)
    } else {
        exists|f: int| #[trigger]
            is_candidate(remaining, f) && (forall|g: int| #[trigger]
                is_candidate(remaining, g) ==> g >= f) && is_trial(
                m,
                req,
                rate,
                remaining,
                f as usize,
                Trial::Fails(detail),
            )
    }
}

/// Choose the next stage.
fn choose_stage<M: PlanMath + FilterDesignMath>(
    req: &PlanRequest,
    rate: Real64,
    remaining: usize,
    m: &M,
) -> (r: Result<StagePlan, StageFailure>)
    requires
        remaining > 1,
    ensures
        match r {
            Ok(plan) => is_choice(*m, *req, rate, remaining, plan) && plan.input_rate == rate
                && plan.taps <= req.max_taps && plan.taps >= 3 && plan.taps % 2 == 1,
            Err(detail) => is_dead_end(*m, *req, rate, remaining, detail),
        },
{
    let mut factor: usize = if remaining < MAX_STAGE_FACTOR {
        remaining
    } else {
        MAX_STAGE_FACTOR
    };
    let mut failure = StageFailure::NoFactor;
    let ghost mut lowest: int = 0;
    while factor >= 2
        invariant
            remaining > 1,
            1 <= factor <= MAX_STAGE_FACTOR,
            factor <= remaining,
            forall|g: int|
                g > factor && #[trigger] is_candidate(remaining, g) ==> factor_fails(
                    *m,
                    *req,
                    rate,
                    remaining,
                    g,
                ),
            if failure == StageFailure::NoFactor {
                forall|g: int| g > factor ==> !#[trigger] is_candidate(remaining, g)
            } else {
                lowest > factor && is_candidate(remaining, lowest) && (forall|g: int|
                    g > factor && #[trigger] is_candidate(remaining, g) ==> g >= lowest) && is_trial(
                    *m,
                    *req,
                    rate,
                    remaining,
                    lowest as usize,
                    Trial::Fails(failure),
                )
            },
        decreases factor,
    {
        if remaining % factor == 0 {
            assert(is_candidate(remaining, factor as int));
            match try_factor(req, rate, remaining, factor, m) {
                Trial::Fits(plan) => {
                    return Ok(plan);
                },
                Trial::Fails(f) => {
                    proof {
                        let g = factor as int;
                        assert(g as usize == factor);
                        assert(is_trial(*m, *req, rate, remaining, g as usize, Trial::Fails(f)));
                        assert(factor_fails(*m, *req, rate, remaining, factor as int));
                        lowest = factor as int;
                    }
                    failure = f;
                    assert(f != StageFailure::NoFactor);
                },
            }
        }
        factor = factor - 1;
    }
    Err(failure)
}

/// Product of the factors of a cascade.
pub open spec fn factor_product(stages: Seq<StagePlan>) -> nat
    decreases stages.len(),
{
    if stages.len() == 0 {
        1
    } else {
        factor_product(stages.drop_last()) * stages.last().factor as nat
    }
}

/// Rate after the stages of a cascade.
pub open spec fn rate_after(input_rate: Real64, stages: Seq<StagePlan>) -> Real64 {
    if stages.len() == 0 {
        input_rate
    } else {
        stages.last().output_rate
    }
}

/// `stages` is the start of a cascade: each is the planner's choice at the rate
/// and with the ratio that the ones before it leave.
pub open spec fn is_cascade<M: PlanMath + FilterDesignMath>(
    m: M,
    req: PlanRequest,
    total: usize,
    stages: Seq<StagePlan>,
) -> bool {
    forall|k: int|
        0 <= k < stages.len() ==> is_choice(
            m,
            req,
            rate_after(req.input_rate, stages.take(k)),
            (total as nat / factor_product(stages.take(k))) as usize,
            #[trigger] stages[k],
        )
}

/// What a request fails on before any stage is planned, if on anything; `total`
/// is the decimation ratio otherwise.
pub open spec fn is_ratio<M: PlanMath>(m: M, req: PlanRequest, r: Result<usize, PlanError>) -> bool {
    let zero = Real64 { bits: 0 };
    if !zero.less(req.input_rate) || !zero.less(req.output_rate) {
        r == Err::<usize, PlanError>(PlanError::RatesNotPositive)
    } else if req.input_rate.less(req.output_rate) {
        r == Err::<usize, PlanError>(PlanError::OutputAboveInput)
    } else if !zero.less(req.passband_hz) || !req.passband_hz.less(req.stopband_hz) {
        r == Err::<usize, PlanError>(PlanError::BandOrder)
    } else {
        exists|limit: Real64| #[trigger]
            call_ensures(M::nyquist_limit, (&m, req.output_rate), limit) && if limit.less(
                req.stopband_hz,
            ) {
                exists|nyquist: Real64| #[trigger]
                    call_ensures(M::nyquist, (&m, req.output_rate), nyquist) && r == Err::<
                        usize,
                        PlanError,
                    >(PlanError::StopbandAboveNyquist { nyquist })
            } else {
                is_whole_ratio(m, req, r)
            }
    }
}

/// The ratio of the rates, if it is a whole number.
pub open spec fn is_whole_ratio<M: PlanMath>(m: M, req: PlanRequest, r: Result<usize, PlanError>) -> bool {
    exists|ratio: Real64, nearest: Real64, off: Real64|
        #![trigger call_ensures(M::nearest, (&m, ratio), nearest), difference_gives(m, ratio, nearest, off)]
        call_ensures(M::ratio, (&m, req.input_rate, req.output_rate), ratio) && call_ensures(
            M::nearest,
            (&m, ratio),
            nearest,
        ) && difference_gives(m, ratio, nearest, off) && if nearest.less(
            Real64 { bits: ONE_BITS },
        ) || (Real64 { bits: RATIO_TOLERANCE_BITS }).less(off.absolute()) {
            r == Err::<usize, PlanError>(PlanError::FractionalRatio { ratio })
        } else {
            r == Ok::<usize, PlanError>(nearest.cast_unsigned(usize::MAX as nat) as usize)
        }
}

/// The decimation ratio of a request.
pub fn decimation_ratio<M: PlanMath>(req: &PlanRequest, m: &M) -> (r: Result<usize, PlanError>)
    ensures
        is_ratio(*m, *req, r),
{
    let zero = Real64 { bits: 0 };
    if !zero.lt(req.input_rate) || !zero.lt(req.output_rate) {
        return Err(PlanError::RatesNotPositive);
    }
    if req.input_rate.lt(req.output_rate) {
        return Err(PlanError::OutputAboveInput);
    }
    if !zero.lt(req.passband_hz) || !req.passband_hz.lt(req.stopband_hz) {
        return Err(PlanError::BandOrder);
    }
    let limit = m.nyquist_limit(req.output_rate);
    assert(call_ensures(M::nyquist_limit, (m, req.output_rate), limit));
    if limit.lt(req.stopband_hz) {
        let nyquist = m.nyquist(req.output_rate);
        assert(call_ensures(M::nyquist, (m, req.output_rate), nyquist));
        return Err(PlanError::StopbandAboveNyquist { nyquist });
    }
    let ratio = m.ratio(req.input_rate, req.output_rate);
    let nearest = m.nearest(ratio);
    let off = m.difference(ratio, nearest);
    assert(call_ensures(M::ratio, (m, req.input_rate, req.output_rate), ratio));
    assert(call_ensures(M::nearest, (m, ratio), nearest));
    assert(difference_gives(*m, ratio, nearest, off));
    let r = if nearest.lt(Real64 { bits: ONE_BITS }) || (Real64 { bits: RATIO_TOLERANCE_BITS }).lt(
        off.abs(),
    ) {
        Err(PlanError::FractionalRatio { ratio })
    } else {
        Ok(nearest.as_usize())
    };
    assert(is_whole_ratio(*m, *req, r));
    r
}

/// Every stage has an odd filter within the budget and a factor in range.
pub open spec fn stages_within(req: PlanRequest, stages: Seq<StagePlan>) -> bool {
    forall|k: int|
        0 <= k < stages.len() ==> {
            &&& 2 <= (#[trigger] stages[k]).factor <= MAX_STAGE_FACTOR
            &&& 3 <= stages[k].taps <= req.max_taps
            &&& stages[k].taps % 2 == 1
            &&& stages[k].input_rate == rate_after(req.input_rate, stages.take(k))
        }
}

/// `r` is the plan for a ratio of `total`.
pub open spec fn is_plan<M: PlanMath + FilterDesignMath>(
    m: M,
    req: PlanRequest,
    total: usize,
    r: Result<Seq<StagePlan>, PlanError>,
) -> bool {
    match r {
        Ok(stages) => {
            &&& is_cascade(m, req, total, stages)
            &&& if total == 0 {
                stages.len() == 0
            } else {
                factor_product(stages) == total
            }
        },
        Err(e) => exists|stages: Seq<StagePlan>, detail: StageFailure|
            #![trigger is_cascade(m, req, total, stages), is_dead_end(m, req, rate_after(req.input_rate, stages), (total as nat / factor_product(stages)) as usize, detail)]
            {
                let remaining = (total as nat / factor_product(stages)) as usize;
                let rate = rate_after(req.input_rate, stages);
                &&& is_cascade(m, req, total, stages)
                &&& remaining > 1
                &&& is_dead_end(m, req, rate, remaining, detail)
                &&& e == PlanError::NoStage { remaining, rate, detail }
            },
    }
}

/// The plan that a `Result` holds, seen as a sequence.
pub open spec fn planned(r: Result<Vec<StagePlan>, PlanError>) -> Result<Seq<StagePlan>, PlanError> {
    match r {
        Ok(stages) => Ok(stages@),
        Err(e) => Err(e),
    }
}

proof fn lemma_stage_divides(remaining: nat, factor: nat, done: nat)
    requires
        2 <= factor <= remaining,
        remaining % factor == 0,
        done > 0,
    ensures
        1 <= remaining / factor < remaining,
        (remaining / factor) * (done * factor) == remaining * done,
        done * factor > 0,
{
    let next = remaining / factor;
    assert(next * factor == remaining && 1 <= next < remaining) by (nonlinear_arith)
        requires
            next == remaining / factor,
            remaining % factor == 0,
            2 <= factor <= remaining,
    ;
    assert(next * (done * factor) == (next * factor) * done) by (nonlinear_arith);
    assert(done * factor > 0) by (nonlinear_arith)
        requires
            done > 0,
            factor > 0,
    ;
}

proof fn lemma_product_push(before: Seq<StagePlan>, plan: StagePlan)
    ensures
        factor_product(before.push(plan)) == factor_product(before) * plan.factor as nat,
{
    assert(before.push(plan).drop_last() =~= before);
}

proof fn lemma_cascade_push<M: PlanMath + FilterDesignMath>(
    m: M,
    req: PlanRequest,
    total: usize,
    before: Seq<StagePlan>,
    plan: StagePlan,
)
    requires
        is_cascade(m, req, total, before),
        is_choice(
            m,
            req,
            rate_after(req.input_rate, before),
            (total as nat / factor_product(before)) as usize,
            plan,
        ),
    ensures
        is_cascade(m, req, total, before.push(plan)),
{
    let stages = before.push(plan);
    assert forall|k: int| 0 <= k < stages.len() implies is_choice(
        m,
        req,
        rate_after(req.input_rate, stages.take(k)),
        (total as nat / factor_product(stages.take(k))) as usize,
        #[trigger] stages[k],
    ) by {
        if k < before.len() {
            assert(stages.take(k) =~= before.take(k));
            assert(stages[k] == before[k]);
        } else {
            assert(stages.take(k) =~= before);
        }
    }
}

proof fn lemma_within_push(req: PlanRequest, before: Seq<StagePlan>, plan: StagePlan)
    requires
        stages_within(req, before),
        2 <= plan.factor <= MAX_STAGE_FACTOR,
        3 <= plan.taps <= req.max_taps,
        plan.taps % 2 == 1,
        plan.input_rate == rate_after(req.input_rate, before),
    ensures
        stages_within(req, before.push(plan)),
{
    let stages = before.push(plan);
    assert forall|k: int| 0 <= k < stages.len() implies {
        &&& 2 <= (#[trigger] stages[k]).factor <= MAX_STAGE_FACTOR
        &&& 3 <= stages[k].taps <= req.max_taps
        &&& stages[k].taps % 2 == 1
        &&& stages[k].input_rate == rate_after(req.input_rate, stages.take(k))
    } by {
        if k < before.len() {
            assert(stages.take(k) =~= before.take(k));
            assert(stages[k] == before[k]);
        } else {
            assert(stages.take(k) =~= before);
        }
    }
}

/// Plan the stages for a decimation ratio of `total`.
fn plan_for_ratio<M: PlanMath + FilterDesignMath>(
    req: &PlanRequest,
    total: usize,
    m: &M,
) -> (r: Result<Vec<StagePlan>, PlanError>)
    ensures
        is_plan(*m, *req, total, planned(r)),
        r matches Ok(stages) ==> stages_within(*req, stages@),
{
    let mut remaining: usize = total;
    let mut stages: Vec<StagePlan> = Vec::new();
    let mut rate = req.input_rate;
    proof {
        let one = factor_product(stages@);
        assert(remaining * one == total) by (nonlinear_arith)
            requires
                one == 1,
                remaining == total,
        ;
    }
    while remaining > 1
        invariant
            total > 0 ==> remaining > 0,
            total == 0 ==> remaining == 0 && stages@.len() == 0,
            remaining * factor_product(stages@) == total || total == 0,
            factor_product(stages@) > 0,
            rate == rate_after(req.input_rate, stages@),
            is_cascade(*m, *req, total, stages@),
            stages_within(*req, stages@),
        decreases remaining,
    {
        let ghost done = factor_product(stages@);
        proof {
            assert(total as nat / done == remaining) by (nonlinear_arith)
                requires
                    remaining * done == total,
                    done > 0,
            ;
        }
        match choose_stage(req, rate, remaining, m) {
            Err(detail) => {
                proof {
                    assert(is_dead_end(
                        *m,
                        *req,
                        rate_after(req.input_rate, stages@),
                        (total as nat / factor_product(stages@)) as usize,
                        detail,
                    ));
                }
                return Err(PlanError::NoStage { remaining, rate, detail });
            },
            Ok(plan) => {
                let ghost before = stages@;
                stages.push(plan);
                let next: usize = remaining / plan.factor;
                proof {
                    assert(is_candidate(remaining, plan.factor as int));
                    assert(stages@ =~= before.push(plan));
                    lemma_stage_divides(remaining as nat, plan.factor as nat, done);
                    lemma_product_push(before, plan);
                    lemma_cascade_push(*m, *req, total, before, plan);
                    lemma_within_push(*req, before, plan);
                }
                rate = plan.output_rate;
                remaining = next;
            },
        }
    }
    Ok(stages)
}

/// `r` is the plan for `req`.
pub open spec fn is_planned<M: PlanMath + FilterDesignMath>(
    m: M,
    req: PlanRequest,
    r: Result<Seq<StagePlan>, PlanError>,
) -> bool {
    exists|total: Result<usize, PlanError>| #[trigger]
        is_ratio(m, req, total) && match total {
            Ok(n) => is_plan(m, req, n, r),
            Err(e) => r == Err::<Seq<StagePlan>, PlanError>(e),
        }
}

/// Plan a cascade of decimation stages.
pub fn plan_stages<M: PlanMath + FilterDesignMath>(
    input_rate: Real64,
    output_rate: Real64,
    passband_hz: Real64,
    stopband_hz: Real64,
    stopband_db: Real64,
    max_taps: usize,
    m: &M,
) -> (r: Result<Vec<StagePlan>, PlanError>)
    ensures
        is_planned(
            *m,
            (PlanRequest {
                input_rate,
                output_rate,
                passband_hz,
                stopband_hz,
                stopband_db,
                max_taps,
            }),
            planned(r),
        ),
        r matches Ok(stages) ==> stages_within(
            (PlanRequest {
                input_rate,
                output_rate,
                passband_hz,
                stopband_hz,
                stopband_db,
                max_taps,
            }),
            stages@,
        ),
{
    let req = PlanRequest {
        input_rate,
        output_rate,
        passband_hz,
        stopband_hz,
        stopband_db,
        max_taps,
    };
    plan_request(&req, m)
}

/// Plan the cascade that a request asks for.
pub fn plan_request<M: PlanMath + FilterDesignMath>(req: &PlanRequest, m: &M) -> (r: Result<
    Vec<StagePlan>,
    PlanError,
>)
    ensures
        is_planned(*m, *req, planned(r)),
        r matches Ok(stages) ==> stages_within(*req, stages@),
{
    let ratio = decimation_ratio(req, m);
    assert(is_ratio(*m, *req, ratio));
    match ratio {
        Ok(total) => plan_for_ratio(req, total, m),
        Err(e) => Err(e),
    }
}

/// Alias protection: the last stage of a complete plan stops at the final
/// stopband edge itself, every other one at its output rate less that edge, and
/// all of them above the passband edge.
pub proof fn stages_protect_the_channel<M: PlanMath + FilterDesignMath>(
    m: M,
    req: PlanRequest,
    total: usize,
    stages: Seq<StagePlan>,
    k: int,
)
    requires
        is_plan(m, req, total, Ok(stages)),
        total > 0,
        0 <= k < stages.len(),
    ensures
        !stages[k].stopband_hz.at_most(req.passband_hz),
        if k == stages.len() - 1 {
            stages[k].stopband_hz == req.stopband_hz
        } else {
            difference_gives(m, stages[k].output_rate, req.stopband_hz, stages[k].stopband_hz)
        },
{
    let plan = stages[k];
    let before = stages.take(k);
    let remaining = (total as nat / factor_product(before)) as usize;
    assert(is_choice(m, req, rate_after(req.input_rate, before), remaining, plan));
    lemma_product_splits(stages, k);
    let done = factor_product(before);
    let rest = factor_product(stages.skip(k));
    lemma_product_positive(m, req, total, stages, k);
    assert(total as nat / done == rest) by (nonlinear_arith)
        requires
            total as nat == done * rest,
            done > 0,
    ;
    assert(rest <= total) by (nonlinear_arith)
        requires
            total as nat == done * rest,
            done > 0,
    ;
    let f = plan.factor as nat;
    assert(stages.skip(k).skip(1) =~= stages.skip(k + 1));
    lemma_product_first(stages.skip(k));
    let tail = factor_product(stages.skip(k + 1));
    assert(rest / f == tail) by (nonlinear_arith)
        requires
            rest == f * tail,
            f > 0,
    ;
    if k == stages.len() - 1 {
        assert(stages.skip(k + 1) =~= seq![]);
    } else {
        lemma_tail_product(m, req, total, stages, k + 1);
    }
}

/// The first factor can be taken out of a product.
pub proof fn lemma_product_first(stages: Seq<StagePlan>)
    requires
        stages.len() > 0,
    ensures
        factor_product(stages) == stages[0].factor as nat * factor_product(stages.skip(1)),
    decreases stages.len(),
{
    let f = stages[0].factor as nat;
    if stages.len() == 1 {
        assert(stages.drop_last() =~= seq![]);
        assert(stages.skip(1) =~= seq![]);
        assert(1 * f == f * 1) by (nonlinear_arith);
    } else {
        let head = stages.drop_last();
        lemma_product_first(head);
        assert(stages.skip(1).drop_last() =~= head.skip(1));
        let a = factor_product(head.skip(1));
        let l = stages.last().factor as nat;
        assert((f * a) * l == f * (a * l)) by (nonlinear_arith);
    }
}

/// A product splits at any place.
proof fn lemma_product_splits(stages: Seq<StagePlan>, k: int)
    requires
        0 <= k <= stages.len(),
    ensures
        factor_product(stages) == factor_product(stages.take(k)) * factor_product(stages.skip(k)),
    decreases k,
{
    let rest = factor_product(stages.skip(k));
    if k == 0 {
        assert(stages.take(0) =~= seq![]);
        assert(stages.skip(0) =~= stages);
        assert(1 * rest == rest) by (nonlinear_arith);
    } else {
        lemma_product_splits(stages, k - 1);
        lemma_product_first(stages.skip(k - 1));
        assert(stages.skip(k - 1).skip(1) =~= stages.skip(k));
        assert(stages.take(k).drop_last() =~= stages.take(k - 1));
        let a = factor_product(stages.take(k - 1));
        let f = stages[k - 1].factor as nat;
        assert(a * (f * rest) == (a * f) * rest) by (nonlinear_arith);
    }
}

/// The factors of the first stages of a cascade are at least two each.
pub proof fn lemma_product_positive<M: PlanMath + FilterDesignMath>(
    m: M,
    req: PlanRequest,
    total: usize,
    stages: Seq<StagePlan>,
    k: int,
)
    requires
        is_cascade(m, req, total, stages),
        0 <= k <= stages.len(),
    ensures
        factor_product(stages.take(k)) > 0,
    decreases k,
{
    if k > 0 {
        lemma_product_positive(m, req, total, stages, k - 1);
        assert(stages.take(k).drop_last() =~= stages.take(k - 1));
        let plan = stages[k - 1];
        assert(is_choice(
            m,
            req,
            rate_after(req.input_rate, stages.take(k - 1)),
            (total as nat / factor_product(stages.take(k - 1))) as usize,
            plan,
        ));
        let a = factor_product(stages.take(k - 1));
        let f = plan.factor as nat;
        assert(a * f > 0) by (nonlinear_arith)
            requires
                a > 0,
                f >= 2,
        ;
    } else {
        assert(stages.take(0) =~= seq![]);
    }
}

/// The factors from a stage on multiply to at least two.
proof fn lemma_tail_product<M: PlanMath + FilterDesignMath>(
    m: M,
    req: PlanRequest,
    total: usize,
    stages: Seq<StagePlan>,
    k: int,
)
    requires
        is_cascade(m, req, total, stages),
        0 <= k < stages.len(),
    ensures
        factor_product(stages.skip(k)) >= 2,
    decreases stages.len() - k,
{
    lemma_product_first(stages.skip(k));
    assert(stages.skip(k).skip(1) =~= stages.skip(k + 1));
    assert(is_choice(
        m,
        req,
        rate_after(req.input_rate, stages.take(k)),
        (total as nat / factor_product(stages.take(k))) as usize,
        stages[k],
    ));
    let f = stages[k].factor as nat;
    let tail = factor_product(stages.skip(k + 1));
    if k + 1 < stages.len() {
        lemma_tail_product(m, req, total, stages, k + 1);
    } else {
        assert(stages.skip(k + 1) =~= seq![]);
    }
    assert(f * tail >= 2) by (nonlinear_arith)
        requires
            f >= 2,
            tail >= 1,
    ;
}

/// Why no factor could be used, in words.
pub open spec fn failure_parts(f: StageFailure, req: PlanRequest, rate: Real64) -> Seq<Part> {
    match f {
        StageFailure::NoFactor => seq![
            Part::Text("no factor in 2..=MAX_STAGE_FACTOR divides the ratio"),
        ],
        StageFailure::NoTransition { factor, stop } => seq![
            Part::Text("stage factor "),
            Part::Count(factor as u64),
            Part::Text(" leaves no transition band (stopband "),
            Part::Number(stop),
            Part::Text(" Hz <= passband "),
            Part::Number(req.passband_hz),
            Part::Text(" Hz)"),
        ],
        StageFailure::OverBudget { factor, taps, transition } => seq![
            Part::Text("stage factor "),
            Part::Count(factor as u64),
            Part::Text(" needs "),
            Part::Count(taps as u64),
            Part::Text(" taps, over the "),
            Part::Count(req.max_taps as u64),
            Part::Text(" budget (transition "),
            Part::Rounded(transition),
            Part::Text(" Hz at "),
            Part::Number(rate),
            Part::Text(" Hz input)"),
        ],
    }
}

/// Why there is no plan for `req`, in words.
pub open spec fn error_parts(e: PlanError, req: PlanRequest) -> Seq<Part> {
    match e {
        PlanError::RatesNotPositive => seq![
            Part::Text("rates must be positive: input "),
            Part::Number(req.input_rate),
            Part::Text(", output "),
            Part::Number(req.output_rate),
        ],
        PlanError::OutputAboveInput => seq![
            Part::Text("output_rate ("),
            Part::Number(req.output_rate),
            Part::Text(") must not exceed input_rate ("),
            Part::Number(req.input_rate),
            Part::Text(")"),
        ],
        PlanError::BandOrder => seq![
            Part::Text("need 0 < passband_hz ("),
            Part::Number(req.passband_hz),
            Part::Text(") < stopband_hz ("),
            Part::Number(req.stopband_hz),
            Part::Text(")"),
        ],
        PlanError::StopbandAboveNyquist { nyquist } => seq![
            Part::Text("stopband_hz ("),
            Part::Number(req.stopband_hz),
            Part::Text(") must not exceed the output Nyquist ("),
            Part::Number(nyquist),
            Part::Text(") — content above it would alias into the channel"),
        ],
        PlanError::FractionalRatio { ratio } => seq![
            Part::Text("input_rate / output_rate must be a whole number, got "),
            Part::Number(ratio),
            Part::Text(" ("),
            Part::Number(req.input_rate),
            Part::Text(" / "),
            Part::Number(req.output_rate),
            Part::Text("). A fractional ratio needs a rational resampler, which this channelizer deliberately does not have; pick an output rate that divides the input rate (e.g. 50 kS/s from 2 MS/s, 2e6 / 40)."),
        ],
        PlanError::NoStage { remaining, rate, detail } => seq![
            Part::Text("cannot plan decimation by "),
            Part::Count(remaining as u64),
            Part::Text(" from "),
            Part::Number(rate),
            Part::Text(" Hz to a "),
            Part::Number(req.output_rate),
            Part::Text(" Hz output within "),
            Part::Count(req.max_taps as u64),
            Part::Text(" taps: "),
        ] + failure_parts(detail, req, rate) + seq![
            Part::Text(". Choose an output rate whose ratio factors into small integers."),
        ],
    }
}

impl StageFailure {
    /// The failure in words.
    fn parts(&self, req: &PlanRequest, rate: Real64) -> (parts: Vec<Part>)
        ensures
            parts@ == failure_parts(*self, *req, rate),
    {
        let parts = match self {
            StageFailure::NoFactor => vec![
                Part::Text("no factor in 2..=MAX_STAGE_FACTOR divides the ratio"),
            ],
            StageFailure::NoTransition { factor, stop } => vec![
                Part::Text("stage factor "),
                Part::Count(*factor as u64),
                Part::Text(" leaves no transition band (stopband "),
                Part::Number(*stop),
                Part::Text(" Hz <= passband "),
                Part::Number(req.passband_hz),
                Part::Text(" Hz)"),
            ],
            StageFailure::OverBudget { factor, taps, transition } => vec![
                Part::Text("stage factor "),
                Part::Count(*factor as u64),
                Part::Text(" needs "),
                Part::Count(*taps as u64),
                Part::Text(" taps, over the "),
                Part::Count(req.max_taps as u64),
                Part::Text(" budget (transition "),
                Part::Rounded(*transition),
                Part::Text(" Hz at "),
                Part::Number(rate),
                Part::Text(" Hz input)"),
            ],
        };
        assert(parts@ =~= failure_parts(*self, *req, rate));
        parts
    }
}

impl PlanError {
    /// The error in words, piece by piece.
    pub fn parts(&self, req: &PlanRequest) -> (parts: Vec<Part>)
        ensures
            parts@ == error_parts(*self, *req),
    {
        let parts = match self {
            PlanError::RatesNotPositive => vec![
                Part::Text("rates must be positive: input "),
                Part::Number(req.input_rate),
                Part::Text(", output "),
                Part::Number(req.output_rate),
            ],
            PlanError::OutputAboveInput => vec![
                Part::Text("output_rate ("),
                Part::Number(req.output_rate),
                Part::Text(") must not exceed input_rate ("),
                Part::Number(req.input_rate),
                Part::Text(")"),
            ],
            PlanError::BandOrder => vec![
                Part::Text("need 0 < passband_hz ("),
                Part::Number(req.passband_hz),
                Part::Text(") < stopband_hz ("),
                Part::Number(req.stopband_hz),
                Part::Text(")"),
            ],
            PlanError::StopbandAboveNyquist { nyquist } => vec![
                Part::Text("stopband_hz ("),
                Part::Number(req.stopband_hz),
                Part::Text(") must not exceed the output Nyquist ("),
                Part::Number(*nyquist),
                Part::Text(") — content above it would alias into the channel"),
            ],
            PlanError::FractionalRatio { ratio } => vec![
                Part::Text("input_rate / output_rate must be a whole number, got "),
                Part::Number(*ratio),
                Part::Text(" ("),
                Part::Number(req.input_rate),
                Part::Text(" / "),
                Part::Number(req.output_rate),
                Part::Text("). A fractional ratio needs a rational resampler, which this channelizer deliberately does not have; pick an output rate that divides the input rate (e.g. 50 kS/s from 2 MS/s, 2e6 / 40)."),
            ],
            PlanError::NoStage { remaining, rate, detail } => {
                let mut parts = vec![
                    Part::Text("cannot plan decimation by "),
                    Part::Count(*remaining as u64),
                    Part::Text(" from "),
                    Part::Number(*rate),
                    Part::Text(" Hz to a "),
                    Part::Number(req.output_rate),
                    Part::Text(" Hz output within "),
                    Part::Count(req.max_taps as u64),
                    Part::Text(" taps: "),
                ];
                let mut inner = detail.parts(req, *rate);
                parts.append(&mut inner);
                parts.push(
                    Part::Text(". Choose an output rate whose ratio factors into small integers."),
                );
                parts
            },
        };
        assert(parts@ =~= error_parts(*self, *req));
        parts
    }

    /// The error in words, with numbers written out by `n`.
    pub fn message<N: NumberText>(&self, req: &PlanRequest, n: &N) -> (s: String)
        ensures
            reads_as(*n, error_parts(*self, *req), s@),
    {
        render(&self.parts(req), n)
    }
}

} // verus!

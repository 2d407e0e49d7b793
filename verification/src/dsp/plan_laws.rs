//! What a plan promises, stage by stage.

use vstd::prelude::*;
use crate::ieee::Real64;
use super::fir::FilterDesignMath;
#[allow(unused_imports)]
use super::fir::{is_tap_count, tap_estimate_gives, taps_from};
use super::plan::{PlanError, PlanMath, PlanRequest, StageFailure, StagePlan};
#[allow(unused_imports)]
use super::plan::{factor_product, is_cascade, is_choice, is_planned, is_ratio, is_trial, is_trial_at, is_whole_ratio};
#[allow(unused_imports)]
use super::plan::{factor_fails, is_candidate, is_dead_end, is_plan, is_stop, rate_after, Trial};

verus! {

/// What the planner finds of a stage that fits, in terms of the arithmetic.
proof fn lemma_fitting_stage<M: PlanMath + FilterDesignMath>(
    m: M,
    req: PlanRequest,
    rate: Real64,
    remaining: usize,
    plan: StagePlan,
)
    requires
        is_trial(m, req, rate, remaining, plan.factor, Trial::Fits(plan)),
    ensures
        plan.input_rate == rate,
        call_ensures(M::stage_rate, (&m, rate, plan.factor), plan.output_rate),
        call_ensures(M::midpoint, (&m, req.passband_hz, plan.stopband_hz), plan.cutoff_hz),
        plan.taps <= req.max_taps,
        exists|transition: Real64| #[trigger]
            call_ensures(M::difference, (&m, plan.stopband_hz, req.passband_hz), transition)
                && is_tap_count(m, req.stopband_db, transition, rate, plan.taps),
{
    let (out, stop) = choose|out: Real64, stop: Real64|
        #![trigger is_trial_at(m, req, rate, plan.factor, out, stop, Trial::Fits(plan))]
        super::plan::stage_rate_gives(m, rate, plan.factor, out) && is_stop(
            m,
            req,
            out,
            remaining / plan.factor == 1,
            stop,
        ) && is_trial_at(m, req, rate, plan.factor, out, stop, Trial::Fits(plan));
    assert(plan.stopband_hz == stop);
    let (transition, taps, cutoff) = choose|transition: Real64, taps: usize, cutoff: Real64|
        #![trigger is_tap_count(m, req.stopband_db, transition, rate, taps), call_ensures(M::midpoint, (&m, req.passband_hz, stop), cutoff)]
        super::plan::difference_gives(m, stop, req.passband_hz, transition) && is_tap_count(
            m,
            req.stopband_db,
            transition,
            rate,
            taps,
        ) && call_ensures(M::midpoint, (&m, req.passband_hz, stop), cutoff) && taps >= 3 && taps % 2
            == 1 && Trial::Fits(plan) == if taps > req.max_taps {
            Trial::Fails(StageFailure::OverBudget { factor: plan.factor, taps, transition })
        } else {
            Trial::Fits(
                StagePlan {
                    factor: plan.factor,
                    input_rate: rate,
                    output_rate: out,
                    cutoff_hz: cutoff,
                    stopband_hz: stop,
                    taps,
                },
            )
        };
    assert(call_ensures(M::difference, (&m, plan.stopband_hz, req.passband_hz), transition));
}

/// Every stage of a plan is designed for its own transition band: its cutoff is the
/// midpoint of the channel's edge and its own stopband edge, and its length is the
/// tap count for the width between the two, at its own input rate and within the
/// budget.
pub proof fn stages_are_designed_for_their_own_band<M: PlanMath + FilterDesignMath>(
    m: M,
    req: PlanRequest,
    stages: Seq<StagePlan>,
    k: int,
)
    requires
        is_planned(m, req, Ok(stages)),
        0 <= k < stages.len(),
    ensures
        call_ensures(M::midpoint, (&m, req.passband_hz, stages[k].stopband_hz), stages[k].cutoff_hz),
        exists|transition: Real64| #[trigger]
            call_ensures(M::difference, (&m, stages[k].stopband_hz, req.passband_hz), transition)
                && is_tap_count(m, req.stopband_db, transition, stages[k].input_rate, stages[k].taps),
        stages[k].taps <= req.max_taps,
{
    let total = choose|total: Result<usize, PlanError>| #[trigger]
        is_ratio(m, req, total) && match total {
            Ok(n) => is_plan(m, req, n, Ok(stages)),
            Err(e) => Ok::<Seq<StagePlan>, PlanError>(stages) == Err::<Seq<StagePlan>, PlanError>(e),
        };
    let n = total->Ok_0;
    let rate = rate_after(req.input_rate, stages.take(k));
    let remaining = (n as nat / factor_product(stages.take(k))) as usize;
    assert(is_choice(m, req, rate, remaining, stages[k]));
    lemma_fitting_stage(m, req, rate, remaining, stages[k]);
}

/// The rates of a plan form a chain: the first stage runs at the input rate, each
/// one emits at its rate over its factor, and the next one runs at that; factors
/// are between two and sixteen.
pub proof fn rates_form_a_chain<M: PlanMath + FilterDesignMath>(
    m: M,
    req: PlanRequest,
    stages: Seq<StagePlan>,
    k: int,
)
    requires
        is_planned(m, req, Ok(stages)),
        0 <= k < stages.len(),
    ensures
        stages[0].input_rate == req.input_rate,
        k > 0 ==> stages[k].input_rate == stages[k - 1].output_rate,
        call_ensures(M::stage_rate, (&m, stages[k].input_rate, stages[k].factor), stages[k].output_rate),
        2 <= stages[k].factor <= 16,
{
    let total = choose|total: Result<usize, PlanError>| #[trigger]
        is_ratio(m, req, total) && match total {
            Ok(n) => is_plan(m, req, n, Ok(stages)),
            Err(e) => Ok::<Seq<StagePlan>, PlanError>(stages) == Err::<Seq<StagePlan>, PlanError>(e),
        };
    let n = total->Ok_0;
    let rate = rate_after(req.input_rate, stages.take(k));
    let remaining = (n as nat / factor_product(stages.take(k))) as usize;
    assert(is_choice(m, req, rate, remaining, stages[k]));
    lemma_fitting_stage(m, req, rate, remaining, stages[k]);
    let first = rate_after(req.input_rate, stages.take(0));
    let all = (n as nat / factor_product(stages.take(0))) as usize;
    assert(is_choice(m, req, first, all, stages[0]));
    lemma_fitting_stage(m, req, first, all, stages[0]);
    if k > 0 {
        assert(stages.take(k).last() == stages[k - 1]);
    }
}

/// A plan is only made of a request that makes sense: positive rates, an output no
/// faster than the input, a channel whose edges are in order and below the output's
/// Nyquist frequency, and a ratio of the rates that is a whole number to within
/// `1e-9`. The factors of the stages make up that number.
pub proof fn plans_answer_sensible_requests<M: PlanMath + FilterDesignMath>(
    m: M,
    req: PlanRequest,
    stages: Seq<StagePlan>,
)
    requires
        is_planned(m, req, Ok(stages)),
    ensures
        ({
            let zero = Real64 { bits: 0 };
            &&& zero.less(req.input_rate)
            &&& zero.less(req.output_rate)
            &&& !req.input_rate.less(req.output_rate)
            &&& zero.less(req.passband_hz)
            &&& req.passband_hz.less(req.stopband_hz)
            &&& exists|limit: Real64| #[trigger]
                call_ensures(M::nyquist_limit, (&m, req.output_rate), limit) && !limit.less(
                    req.stopband_hz,
                )
            &&& exists|ratio: Real64, nearest: Real64, off: Real64|
                #![trigger call_ensures(M::nearest, (&m, ratio), nearest), call_ensures(M::difference, (&m, ratio, nearest), off)]
                {
                    let n = nearest.cast_unsigned(usize::MAX as nat);
                    &&& call_ensures(M::ratio, (&m, req.input_rate, req.output_rate), ratio)
                    &&& call_ensures(M::nearest, (&m, ratio), nearest)
                    &&& call_ensures(M::difference, (&m, ratio, nearest), off)
                    &&& !nearest.less(Real64 { bits: 0x3FF0_0000_0000_0000 })
                    &&& !(Real64 { bits: 0x3E11_2E0B_E826_D695 }).less(off)
                    &&& !off.less(Real64 { bits: 0xBE11_2E0B_E826_D695 })
                    &&& if n == 0 {
                        stages.len() == 0
                    } else {
                        factor_product(stages) == n
                    }
                }
        }),
{
    let total = choose|total: Result<usize, PlanError>| #[trigger]
        is_ratio(m, req, total) && match total {
            Ok(n) => is_plan(m, req, n, Ok(stages)),
            Err(e) => Ok::<Seq<StagePlan>, PlanError>(stages) == Err::<Seq<StagePlan>, PlanError>(e),
        };
    assert(total is Ok);
    let limit = choose|limit: Real64| #[trigger]
        call_ensures(M::nyquist_limit, (&m, req.output_rate), limit) && if limit.less(
            req.stopband_hz,
        ) {
            exists|nyquist: Real64| #[trigger]
                call_ensures(M::nyquist, (&m, req.output_rate), nyquist) && total == Err::<
                    usize,
                    PlanError,
                >(PlanError::StopbandAboveNyquist { nyquist })
        } else {
            is_whole_ratio(m, req, total)
        };
    assert(!limit.less(req.stopband_hz));
    assert(is_whole_ratio(m, req, total));
    let (ratio, nearest, off) = choose|ratio: Real64, nearest: Real64, off: Real64|
        #![trigger call_ensures(M::nearest, (&m, ratio), nearest), super::plan::difference_gives(m, ratio, nearest, off)]
        call_ensures(M::ratio, (&m, req.input_rate, req.output_rate), ratio) && call_ensures(
            M::nearest,
            (&m, ratio),
            nearest,
        ) && super::plan::difference_gives(m, ratio, nearest, off) && if nearest.less(
            Real64 { bits: super::fir::ONE_BITS },
        ) || (Real64 { bits: super::plan::RATIO_TOLERANCE_BITS }).less(off.absolute()) {
            total == Err::<usize, PlanError>(PlanError::FractionalRatio { ratio })
        } else {
            total == Ok::<usize, PlanError>(nearest.cast_unsigned(usize::MAX as nat) as usize)
        };
    assert(call_ensures(M::difference, (&m, ratio, nearest), off));
}

/// A factor that the planner could have used and did not: one that divides what is
/// left of the ratio, leaves a transition band, and fits the budget.
pub open spec fn was_usable<M: PlanMath + FilterDesignMath>(
    m: M,
    req: PlanRequest,
    rate: Real64,
    remaining: nat,
    factor: usize,
) -> bool {
    &&& 2 <= factor <= 16
    &&& factor <= remaining
    &&& remaining % (factor as nat) == 0
    &&& forall|out: Real64, stop: Real64|
        #![trigger call_ensures(M::stage_rate, (&m, rate, factor), out), req.passband_hz.less(stop)]
        call_ensures(M::stage_rate, (&m, rate, factor), out) && (if factor == remaining {
            stop == req.stopband_hz
        } else {
            call_ensures(M::difference, (&m, out, req.stopband_hz), stop)
        }) ==> req.passband_hz.less(stop) && forall|transition: Real64, taps: usize|
            #![trigger is_tap_count(m, req.stopband_db, transition, rate, taps)]
            call_ensures(M::difference, (&m, stop, req.passband_hz), transition) && is_tap_count(
                m,
                req.stopband_db,
                transition,
                rate,
                taps,
            ) ==> taps <= req.max_taps
}

/// A factor that fails was not usable.
proof fn lemma_failing_factor<M: PlanMath + FilterDesignMath>(
    m: M,
    req: PlanRequest,
    rate: Real64,
    remaining: usize,
    g: int,
)
    requires
        is_candidate(remaining, g),
        factor_fails(m, req, rate, remaining, g),
    ensures
        !was_usable(m, req, rate, remaining as nat, g as usize),
{
    let factor = g as usize;
    let f = choose|f: StageFailure| #[trigger]
        is_trial(m, req, rate, remaining, g as usize, Trial::Fails(f));
    let (out, stop) = choose|out: Real64, stop: Real64|
        #![trigger is_trial_at(m, req, rate, factor, out, stop, Trial::Fails(f))]
        super::plan::stage_rate_gives(m, rate, factor, out) && is_stop(
            m,
            req,
            out,
            remaining / factor == 1,
            stop,
        ) && is_trial_at(m, req, rate, factor, out, stop, Trial::Fails(f));
    assert(remaining / factor == 1 <==> factor == remaining) by {
        let q = remaining as int / factor as int;
        vstd::arithmetic::div_mod::lemma_fundamental_div_mod(remaining as int, factor as int);
        if q == 1 {
            vstd::arithmetic::mul::lemma_mul_basics(factor as int);
        } else if factor == remaining {
            vstd::arithmetic::div_mod::lemma_div_by_self(factor as int);
        }
    }
    if was_usable(m, req, rate, remaining as nat, factor) {
        assert(call_ensures(M::stage_rate, (&m, rate, factor), out));
        if stop.at_most(req.passband_hz) {
            assert(req.passband_hz.less(stop));
        } else {
            let (transition, taps, cutoff) = choose|transition: Real64, taps: usize, cutoff: Real64|
                #![trigger is_tap_count(m, req.stopband_db, transition, rate, taps), call_ensures(M::midpoint, (&m, req.passband_hz, stop), cutoff)]
                super::plan::difference_gives(m, stop, req.passband_hz, transition) && is_tap_count(
                    m,
                    req.stopband_db,
                    transition,
                    rate,
                    taps,
                ) && call_ensures(M::midpoint, (&m, req.passband_hz, stop), cutoff) && taps >= 3
                    && taps % 2 == 1 && Trial::Fails(f) == if taps > req.max_taps {
                    Trial::Fails(StageFailure::OverBudget { factor, taps, transition })
                } else {
                    Trial::Fits(
                        StagePlan {
                            factor,
                            input_rate: rate,
                            output_rate: out,
                            cutoff_hz: cutoff,
                            stopband_hz: stop,
                            taps,
                        },
                    )
                };
            assert(req.passband_hz.less(stop));
            assert(taps > req.max_taps);
        }
    }
}

/// The planner takes the largest factor that it can: no larger one that divides
/// what is left of the ratio would have left a transition band and fitted the
/// budget.
pub proof fn the_largest_usable_factor_is_taken<M: PlanMath + FilterDesignMath>(
    m: M,
    req: PlanRequest,
    total: usize,
    stages: Seq<StagePlan>,
    k: int,
    larger: usize,
)
    requires
        is_plan(m, req, total, Ok(stages)),
        0 <= k < stages.len(),
        larger > stages[k].factor,
    ensures
        !was_usable(
            m,
            req,
            stages[k].input_rate,
            total as nat / factor_product(stages.take(k)),
            larger,
        ),
{
    let rate = rate_after(req.input_rate, stages.take(k));
    super::plan::lemma_product_positive(m, req, total, stages, k);
    let left = total as nat / factor_product(stages.take(k));
    let remaining = left as usize;
    assert(left <= total) by {
        vstd::arithmetic::div_mod::lemma_div_is_ordered_by_denominator(
            total as int,
            1,
            factor_product(stages.take(k)) as int,
        );
    }
    assert(is_choice(m, req, rate, remaining, stages[k]));
    lemma_fitting_stage(m, req, rate, remaining, stages[k]);
    if was_usable(m, req, rate, left, larger) {
        assert(is_candidate(remaining, larger as int));
        lemma_failing_factor(m, req, rate, remaining, larger as int);
    }
}

/// The planner does not give up early: where it finds no stage, no factor from two
/// to sixteen was usable for what is left of the ratio.
pub proof fn giving_up_means_nothing_was_usable<M: PlanMath + FilterDesignMath>(
    m: M,
    req: PlanRequest,
    total: usize,
    remaining: usize,
    rate: Real64,
    detail: StageFailure,
    factor: usize,
)
    requires
        is_plan(m, req, total, Err(PlanError::NoStage { remaining, rate, detail })),
    ensures
        remaining > 1,
        !was_usable(m, req, rate, remaining as nat, factor),
{
    let (stages, why) = choose|stages: Seq<StagePlan>, why: StageFailure|
        #![trigger is_cascade(m, req, total, stages), is_dead_end(m, req, rate_after(req.input_rate, stages), (total as nat / factor_product(stages)) as usize, why)]
        {
            let left = (total as nat / factor_product(stages)) as usize;
            let r = rate_after(req.input_rate, stages);
            &&& is_cascade(m, req, total, stages)
            &&& left > 1
            &&& is_dead_end(m, req, r, left, why)
            &&& PlanError::NoStage { remaining, rate, detail } == (PlanError::NoStage {
                remaining: left,
                rate: r,
                detail: why,
            })
        };
    if was_usable(m, req, rate, remaining as nat, factor) {
        assert(is_candidate(remaining, factor as int));
        lemma_failing_factor(m, req, rate, remaining, factor as int);
    }
}

/// The filter length that is counted for a transition is the smallest odd number
/// that is at least two above the estimate; a band or a rate that is not positive,
/// and an estimate that is not a sensible number, count as unaffordable, and so may
/// one of `2^30` and more.
pub proof fn tap_counts_follow_the_estimate<M: FilterDesignMath>(
    m: M,
    stopband_db: Real64,
    transition_hz: Real64,
    sample_rate: Real64,
    taps: usize,
)
    requires
        is_tap_count(m, stopband_db, transition_hz, sample_rate, taps),
    ensures
        ({
            let zero = Real64 { bits: 0 };
            if transition_hz.at_most(zero) || sample_rate.at_most(zero) {
                taps == usize::MAX
            } else {
                exists|n: Real64| #[trigger]
                    call_ensures(
                        M::tap_estimate,
                        (&m, stopband_db, transition_hz, sample_rate),
                        n,
                    ) && if !n.finite() || n.less(zero) {
                        taps == usize::MAX
                    } else {
                        (taps == usize::MAX && !n.less(Real64 { bits: 0x41D0_0000_0000_0000 })) || {
                            let whole = n.cast_unsigned(usize::MAX as nat);
                            whole + 2 <= taps <= whole + 3 && taps % 2 == 1
                        }
                    }
            }
        }),
{
    let zero = Real64 { bits: 0 };
    if !(transition_hz.at_most(zero) || sample_rate.at_most(zero)) {
        let n = choose|n: Real64| #[trigger]
            tap_estimate_gives(m, stopband_db, transition_hz, sample_rate, n) && taps == taps_from(n);
        assert(call_ensures(M::tap_estimate, (&m, stopband_db, transition_hz, sample_rate), n));
    }
}

/// What the planner gives as its reason is one: a stop at or below the channel's
/// edge, or more taps than the budget, of a factor that divides what is left; and
/// that there was no factor only where there was none.
pub proof fn reasons_for_giving_up_hold<M: PlanMath + FilterDesignMath>(
    m: M,
    req: PlanRequest,
    rate: Real64,
    remaining: usize,
    detail: StageFailure,
)
    requires
        is_dead_end(m, req, rate, remaining, detail),
    ensures
        match detail {
            StageFailure::NoFactor => forall|g: int|
                2 <= g <= 16 && g <= remaining ==> #[trigger] (remaining as int % g) != 0,
            StageFailure::NoTransition { factor, stop } => 2 <= factor <= 16 && remaining % factor == 0
                && stop.at_most(req.passband_hz),
            StageFailure::OverBudget { factor, taps, transition } => 2 <= factor <= 16 && remaining
                % factor == 0 && taps > req.max_taps && is_tap_count(
                m,
                req.stopband_db,
                transition,
                rate,
                taps,
            ),
        },
{
    if detail == StageFailure::NoFactor {
        assert forall|g: int| 2 <= g <= 16 && g <= remaining implies #[trigger] (remaining as int % g)
            != 0 by {
            assert(!is_candidate(remaining, g));
        }
    } else {
        let f = choose|f: int| #[trigger]
            is_candidate(remaining, f) && (forall|g: int| #[trigger]
                is_candidate(remaining, g) ==> g >= f) && is_trial(
                m,
                req,
                rate,
                remaining,
                f as usize,
                Trial::Fails(detail),
            );
        let factor = f as usize;
        let (out, stop) = choose|out: Real64, stop: Real64|
            #![trigger is_trial_at(m, req, rate, factor, out, stop, Trial::Fails(detail))]
            super::plan::stage_rate_gives(m, rate, factor, out) && is_stop(
                m,
                req,
                out,
                remaining / factor == 1,
                stop,
            ) && is_trial_at(m, req, rate, factor, out, stop, Trial::Fails(detail));
        assert(is_trial_at(m, req, rate, factor, out, stop, Trial::Fails(detail)));
    }
}

} // verus!

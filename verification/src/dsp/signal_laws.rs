//! What the signal path promises, in terms of samples, phases and taps.

use vstd::prelude::*;
#[allow(unused_imports)]
use vstd::arithmetic::power2::{lemma2_to64, lemma_pow2_adds, lemma_pow2_pos, pow2};
use crate::ieee::{Real32, Real64};
#[allow(unused_imports)]
use crate::ieee::scaled_round;
#[allow(unused_imports)]
use super::decimator::{are_samples_of, cascades, is_fresh_stage, saturated_product, settling_of, stage_emits, steps};
use super::decimator::{ChannelState, StageState};
#[allow(unused_imports)]
use super::filter::{accumulates, after_all, filters, lemma_after_all_phase, mac_gives};
use super::filter::{FilterMath, FilterState};
use super::fir::FilterDesignMath;
#[allow(unused_imports)]
use super::fir::{bessel_partial, bessel_term_gives, is_bessel_i0, is_cutoff, is_gain_scale, is_kaiser_beta, is_normalized_filter};
#[allow(unused_imports)]
use super::fir::{is_kaiser_lowpass, is_raw_design, is_raw_tap, is_sinc, is_window, are_raw_taps, running_sums, scaled_gives};
#[allow(unused_imports)]
use super::fir::{negligible_gives, sum_gives, term_negligible};
use super::fma::MultiplyAddMath;
#[allow(unused_imports)]
use super::fma::{multiply_add_gives, products_written, shortest, LANES};
use super::iq::Iq;
#[allow(unused_imports)]
use super::iq::{interleaved_sc16, quantized};
use super::nco::{Oscillation, OscillatorMath};
#[allow(unused_imports)]
use super::nco::{advance_gives, is_initial, mixes, phasor_gives, rotate_gives};
use super::plan::StagePlan;
#[allow(unused_imports)]
use super::plan::{factor_product, lemma_product_first};

verus! {

/// A 16-bit component is the nearest one to the number, which lies on the scale of
/// `2^15` to one: it is less than or exactly half a step away, with the same sign,
/// unless the number is beyond the ends of the range, where it is the end. NaN is
/// zero.
pub proof fn components_are_nearest(v: Real32)
    ensures
        v.nan() ==> quantized(v) == 0,
        !v.nan() && !v.finite() ==> quantized(v) == if v.negative() {
            -32768int
        } else {
            32767
        },
        v.finite() ==> {
            let c = quantized(v);
            let a = if c < 0 {
                -c
            } else {
                c
            };
            let end = if v.negative() {
                32768int
            } else {
                32767
            };
            let m = v.mantissa() as int;
            let e = v.exponent() + 15;
            &&& c == a && !v.negative() || c == -a && v.negative()
            &&& 0 <= a <= end
            &&& e >= 0 ==> a == m * pow2(e as nat) || a == end && m * pow2(e as nat) > end
            &&& e < 0 ==> {
                let d = pow2((-e) as nat) as int;
                &&& 2 * (a * d) - d <= 2 * m
                &&& a < end ==> 2 * m < 2 * (a * d) + d
            }
        },
{
    if v.finite() {
        let m = v.mantissa() as int;
        let e = v.exponent() + 15;
        let end = if v.negative() {
            32768int
        } else {
            32767
        };
        if e < 0 {
            let k = (-e) as nat;
            let h = pow2((k - 1) as nat) as int;
            let d = pow2(k) as int;
            lemma_pow2_adds(1, (k - 1) as nat);
            lemma2_to64();
            lemma_pow2_pos(k);
            assert(d == 2 * h);
            let q = (m + h) / d;
            vstd::arithmetic::div_mod::lemma_fundamental_div_mod(m + h, d);
            vstd::arithmetic::div_mod::lemma_mod_bound(m + h, d);
            vstd::arithmetic::mul::lemma_mul_is_commutative(d, q);
            assert(scaled_round(m as nat, e) == q);
            if q > end {
                assert(end * d <= q * d) by (nonlinear_arith)
                    requires
                        end < q,
                        d > 0,
                ;
            }
        }
    }
}

/// Interleaving puts the in-phase component of sample `k` first and its quadrature
/// component second.
pub proof fn interleaving_keeps_the_order(iq: Seq<Iq>, k: int)
    requires
        0 <= k < iq.len(),
    ensures
        interleaved_sc16(iq).len() == 2 * iq.len(),
        interleaved_sc16(iq)[2 * k] == quantized(iq[k].i),
        interleaved_sc16(iq)[2 * k + 1] == quantized(iq[k].q),
{
    assert((2 * k) / 2 == k);
    assert((2 * k + 1) / 2 == k);
}

/// Sample `k` of decoded components is the pair `2 * k` and `2 * k + 1` of them, on
/// the scale of `2^15` to one and exactly, and quantizing it gives the pair back.
pub proof fn decoded_samples_are_the_pairs(iq: Seq<Iq>, interleaved: Seq<i16>, k: int)
    requires
        are_samples_of(iq, interleaved),
        0 <= k < interleaved.len() / 2,
    ensures
        iq.len() == interleaved.len() / 2,
        quantized(iq[k].i) == interleaved[2 * k],
        quantized(iq[k].q) == interleaved[2 * k + 1],
{
    super::iq::conversion_round_trips(interleaved[2 * k] as int, iq[k].i);
    super::iq::conversion_round_trips(interleaved[2 * k + 1] as int, iq[k].q);
}

/// A sample is turned by the phasor of the phase that stands when it comes, and the
/// phase then moves on by one step, less a full turn once it has reached one.
pub proof fn samples_are_turned_by_the_standing_phase<M: OscillatorMath>(
    m: M,
    s: Oscillation,
    x: Iq,
    t: Oscillation,
    y: Iq,
)
    requires
        mixes(m, s, x, t, y),
    ensures
        exists|c: Real32, ms: Real32| #[trigger]
            call_ensures(M::rotate, (&m, x, c, ms), y) && call_ensures(
                M::phasor,
                (&m, s.phase),
                (c, ms),
            ),
        exists|raw: Real64| #[trigger]
            call_ensures(M::advance, (&m, s.phase, s.step), raw) && if raw.less(
                Real64 { bits: 0x4019_21FB_5444_2D18 },
            ) || raw.nan() {
                t.phase == raw
            } else {
                call_ensures(M::unwind, (&m, raw), t.phase)
            },
        t.step == s.step,
{
    let ph = choose|ph: (Real32, Real32)| #[trigger]
        phasor_gives(m, s.phase, ph) && rotate_gives(m, x, ph, y);
    assert(call_ensures(M::rotate, (&m, x, ph.0, ph.1), y));
    let raw = choose|raw: Real64| #[trigger]
        advance_gives(m, s.phase, s.step, raw) && if (Real64 {
            bits: super::nco::TAU_BITS,
        }).at_most(raw) {
            super::nco::unwind_gives(m, raw, t.phase)
        } else {
            t.phase == raw
        };
    assert(call_ensures(M::advance, (&m, s.phase, s.step), raw));
}

/// A new oscillator starts at phase zero, and steps by what the offset makes of the
/// sample rate; without a positive rate it stands still.
pub proof fn oscillators_start_at_zero<M: OscillatorMath>(
    m: M,
    offset_hz: Real64,
    sample_rate: Real64,
    s: Oscillation,
)
    requires
        is_initial(m, offset_hz, sample_rate, s),
    ensures
        s.phase.bits == 0,
        (Real64 { bits: 0 }).less(sample_rate) ==> call_ensures(
            M::phase_step,
            (&m, offset_hz, sample_rate),
            s.step,
        ),
        !(Real64 { bits: 0 }).less(sample_rate) ==> s.step.bits == 0,
{
}

/// Tap `k` of a filter meets the input that came `k` inputs ago: from silence, the
/// delay line holds the last inputs, the newest first.
pub proof fn the_delay_line_holds_the_last_inputs(
    taps: Seq<Real32>,
    factor: nat,
    xs: Seq<Real32>,
    k: int,
)
    requires
        0 <= k < taps.len(),
    ensures
        ({
            let s = after_all(FilterState::start(taps, factor), xs);
            &&& s.taps == taps
            &&& s.factor == factor
            &&& s.history.len() == taps.len()
            &&& s.history[k] == if k < xs.len() {
                xs[xs.len() - 1 - k]
            } else {
                Real32 { bits: 0 }
            }
        }),
    decreases xs.len(),
{
    if xs.len() > 0 {
        the_delay_line_holds_the_last_inputs(taps, factor, xs.drop_last(), k);
        if k > 0 {
            the_delay_line_holds_the_last_inputs(taps, factor, xs.drop_last(), k - 1);
        }
    }
}

/// An output of a filter is the sum, from zero on and in the order of the taps, of
/// tap `k` times the input of `k` inputs ago, the newest being the one at hand.
pub proof fn outputs_are_sums_over_the_taps<M: FilterMath>(
    m: M,
    s: FilterState,
    x: Real32,
    y: Option<Real32>,
)
    requires
        s.valid(),
        filters(m, s, x, y),
    ensures
        y is Some <==> s.phase + 1 == s.factor,
        y is Some ==> exists|accs: Seq<Real32>|
            #![trigger accs.last()]
            {
                &&& accs.len() == s.taps.len() + 1
                &&& accs[0].bits == 0
                &&& forall|k: int|
                    0 <= k < s.taps.len() ==> call_ensures(
                        M::multiply_accumulate,
                        (
                            &m,
                            accs[k],
                            #[trigger] s.taps[k],
                            if k == 0 {
                                x
                            } else {
                                s.history[k - 1]
                            },
                        ),
                        accs[k + 1],
                    )
                &&& y == Some(accs.last())
            },
{
    if y is Some {
        let xs = s.after(x).history;
        let accs = choose|accs: Seq<Real32>| #[trigger]
            accumulates(m, s.taps, xs, accs) && y.unwrap() == accs.last();
        assert forall|k: int| 0 <= k < s.taps.len() implies call_ensures(
            M::multiply_accumulate,
            (
                &m,
                accs[k],
                #[trigger] s.taps[k],
                if k == 0 {
                    x
                } else {
                    s.history[k - 1]
                },
            ),
            accs[k + 1],
        ) by {
            assert(mac_gives(m, accs[k], s.taps[k], xs[k], accs[k + 1]));
            assert(xs[k] == if k == 0 {
                x
            } else {
                s.history[k - 1]
            });
        }
        let last = accs.last();
        assert(y == Some(last));
    }
}

/// A new filter answers every `factor`-th input, and no other.
pub proof fn every_factor_th_input_is_answered<M: FilterMath>(
    m: M,
    taps: Seq<Real32>,
    factor: nat,
    xs: Seq<Real32>,
    x: Real32,
    y: Option<Real32>,
)
    requires
        factor >= 1,
        filters(m, after_all(FilterState::start(taps, factor), xs), x, y),
    ensures
        y is Some <==> (xs.len() + 1) % factor == 0,
{
    let s = FilterState::start(taps, factor);
    lemma_after_all_phase(s, xs);
    let n = xs.len() as int;
    let f = factor as int;
    vstd::arithmetic::div_mod::lemma_fundamental_div_mod(n, f);
    vstd::arithmetic::div_mod::lemma_mod_bound(n, f);
    let q = n / f;
    vstd::arithmetic::mul::lemma_mul_is_commutative(f, q);
    if n % f + 1 == f {
        assert((q + 1) * f == q * f + f) by (nonlinear_arith);
        vstd::arithmetic::div_mod::lemma_fundamental_div_mod_converse(n + 1, f, q + 1, 0);
    } else {
        vstd::arithmetic::div_mod::lemma_fundamental_div_mod_converse(n + 1, f, q, n % f + 1);
    }
}

/// A sample is mixed first and then runs down the stages: both components through
/// stage `k` as it stands, and on to the next only where that stage answers. What
/// leaves the last stage is the output; stages that it does not reach stay as they
/// are.
pub proof fn samples_run_down_the_stages_in_order<M: OscillatorMath + FilterMath>(
    m: M,
    s: ChannelState,
    x: Iq,
    t: ChannelState,
    y: Option<Iq>,
)
    requires
        steps(m, s, x, t, y),
    ensures
        t.stages.len() == s.stages.len(),
        exists|vs: Seq<Iq>|
            #![trigger mixes(m, s.osc, x, t.osc, vs[0])]
            {
                let depth = vs.len() - 1;
                &&& 0 <= depth <= s.stages.len()
                &&& mixes(m, s.osc, x, t.osc, vs[0])
                &&& forall|k: int|
                    0 <= k < depth ==> filters(
                        m,
                        (#[trigger] s.stages[k]).i,
                        vs[k].i,
                        Some(vs[k + 1].i),
                    ) && filters(m, s.stages[k].q, vs[k].q, Some(vs[k + 1].q))
                &&& depth < s.stages.len() ==> filters(m, s.stages[depth].i, vs[depth].i, None)
                    && filters(m, s.stages[depth].q, vs[depth].q, None) && y is None
                &&& depth == s.stages.len() ==> y == Some(vs[depth])
                &&& forall|k: int|
                    0 <= k < s.stages.len() && k <= depth ==> (#[trigger] t.stages[k]).i
                        == s.stages[k].i.after(vs[k].i) && t.stages[k].q == s.stages[k].q.after(vs[k].q)
                &&& forall|k: int|
                    depth < k < s.stages.len() ==> #[trigger] t.stages[k] == s.stages[k]
            },
{
    let vs = choose|vs: Seq<Iq>| #[trigger]
        cascades(m, s.stages, vs, t.stages, y) && mixes(m, s.osc, x, t.osc, vs[0]);
    let depth = vs.len() - 1;
    assert(mixes(m, s.osc, x, t.osc, vs[0]));
    assert forall|k: int| 0 <= k < depth implies filters(
        m,
        (#[trigger] s.stages[k]).i,
        vs[k].i,
        Some(vs[k + 1].i),
    ) && filters(m, s.stages[k].q, vs[k].q, Some(vs[k + 1].q)) by {
        assert(stage_emits(m, s.stages[k], vs[k], vs[k + 1]));
    }
}

/// A filter takes in its newest input, forgets its oldest, and keeps its taps; its
/// phase counts the inputs modulo the factor.
pub proof fn filters_remember_as_many_inputs_as_taps(s: FilterState, x: Real32, k: int)
    requires
        s.valid(),
        0 <= k < s.taps.len(),
    ensures
        s.after(x).taps == s.taps,
        s.after(x).factor == s.factor,
        s.after(x).history.len() == s.history.len(),
        s.after(x).history[k] == if k == 0 {
            x
        } else {
            s.history[k - 1]
        },
        s.phase + 1 < s.factor ==> s.after(x).phase == s.phase + 1,
        s.phase + 1 == s.factor ==> s.after(x).phase == 0,
{
    if s.phase + 1 < s.factor {
        vstd::arithmetic::div_mod::lemma_small_mod((s.phase + 1) as nat, s.factor);
    } else {
        vstd::arithmetic::div_mod::lemma_mod_self_0(s.factor as int);
    }
}

proof fn lemma_unsaturated(plan: Seq<StagePlan>)
    requires
        factor_product(plan) <= usize::MAX,
        forall|k: int| 0 <= k < plan.len() ==> (#[trigger] plan[k]).factor >= 1,
    ensures
        saturated_product(plan) == factor_product(plan),
    decreases plan.len(),
{
    if plan.len() > 0 {
        let head = plan.drop_last();
        assert forall|k: int| 0 <= k < head.len() implies (#[trigger] head[k]).factor >= 1 by {
            assert(head[k] == plan[k]);
        }
        let p = factor_product(head);
        let f = plan.last().factor as nat;
        assert(p <= p * f) by (nonlinear_arith)
            requires
                f >= 1,
        ;
        lemma_unsaturated(head);
    }
}

/// Filters settle from the input on: the first stage after as many inputs as it has
/// taps, and all that is behind it in its own time, which runs slower by its
/// factor.
pub proof fn settling_adds_up_from_the_first_stage(plan: Seq<StagePlan>)
    requires
        plan.len() > 0,
        factor_product(plan) <= usize::MAX,
        forall|k: int| 0 <= k < plan.len() ==> (#[trigger] plan[k]).factor >= 1,
    ensures
        settling_of(plan) == plan[0].taps + plan[0].factor * settling_of(plan.skip(1)),
        settling_of(Seq::<StagePlan>::empty()) == 0,
    decreases plan.len(),
{
    let head = plan.drop_last();
    let f0 = plan[0].factor as int;
    assert forall|k: int| 0 <= k < head.len() implies (#[trigger] head[k]).factor >= 1 by {
        assert(head[k] == plan[k]);
    }
    let p = factor_product(head);
    let f = plan.last().factor as nat;
    assert(plan.last() == plan[plan.len() - 1]);
    assert(p <= p * f) by (nonlinear_arith)
        requires
            f >= 1,
    ;
    lemma_unsaturated(head);
    if plan.len() == 1 {
        assert(head =~= Seq::empty());
        assert(plan.skip(1) =~= Seq::empty());
        assert(settling_of(plan.skip(1)) == 0);
        assert(f0 * 0 == 0) by (nonlinear_arith);
        assert(plan[0].taps as nat * 1 == plan[0].taps);
    } else {
        settling_adds_up_from_the_first_stage(head);
        let mid = head.skip(1);
        assert(plan.skip(1).drop_last() =~= mid);
        assert(plan.skip(1).last() == plan.last());
        lemma_product_first(head);
        lemma_product_tail_fits(head);
        lemma_unsaturated(mid);
        let t = plan.last().taps as int;
        let q = factor_product(mid) as int;
        let s = settling_of(mid) as int;
        assert(f0 * s + t * (f0 * q) == f0 * (s + t * q)) by (nonlinear_arith);
    }
}

/// What is behind the first stage decimates no more than the whole.
proof fn lemma_product_tail_fits(plan: Seq<StagePlan>)
    requires
        plan.len() > 0,
        factor_product(plan) <= usize::MAX,
        forall|k: int| 0 <= k < plan.len() ==> (#[trigger] plan[k]).factor >= 1,
    ensures
        factor_product(plan.skip(1)) <= usize::MAX,
        forall|k: int| 0 <= k < plan.len() - 1 ==> (#[trigger] plan.skip(1)[k]).factor >= 1,
{
    lemma_product_first(plan);
    let q = factor_product(plan.skip(1)) as int;
    let f = plan[0].factor as int;
    assert(q <= f * q) by (nonlinear_arith)
        requires
            f >= 1,
            q >= 0,
    ;
}

/// The window's shape follows the attenuation: one formula above 50 dB, another
/// from 21 dB on, and none below.
pub proof fn the_window_follows_the_attenuation<M: FilterDesignMath>(m: M, stopband_db: Real64, beta: Real64)
    requires
        is_kaiser_beta(m, stopband_db, beta),
    ensures
        ({
            let fifty = Real64 { bits: 0x4049_0000_0000_0000 };
            let twenty_one = Real64 { bits: 0x4035_0000_0000_0000 };
            &&& fifty.less(stopband_db) ==> call_ensures(M::steep_beta, (&m, stopband_db), beta)
            &&& !fifty.less(stopband_db) && twenty_one.at_most(stopband_db) ==> call_ensures(
                M::moderate_beta,
                (&m, stopband_db),
                beta,
            )
            &&& !fifty.less(stopband_db) && !twenty_one.at_most(stopband_db) ==> beta.bits == 0
        }),
{
}

/// The cutoff of a design is the one asked for, as a fraction of the sample rate,
/// kept within `1e-9` and `0.499999`.
pub proof fn the_cutoff_is_kept_in_range<M: FilterDesignMath>(
    m: M,
    cutoff_hz: Real64,
    sample_rate: Real64,
    fc: Real64,
)
    requires
        is_cutoff(m, cutoff_hz, sample_rate, fc),
    ensures
        exists|raw: Real64| #[trigger]
            call_ensures(M::cutoff_fraction, (&m, cutoff_hz, sample_rate), raw) && {
                let lo = Real64 { bits: 0x3E11_2E0B_E826_D695 };
                let hi = Real64 { bits: 0x3FDF_FFFB_CE42_17D3 };
                &&& raw.less(lo) ==> fc == lo
                &&& hi.less(raw) ==> fc == hi
                &&& !raw.less(lo) && !hi.less(raw) ==> fc == raw
            },
{
    let raw = choose|raw: Real64| #[trigger]
        call_ensures(M::cutoff_fraction, (&m, cutoff_hz, sample_rate), raw) && fc == raw.clamped(
            Real64 { bits: super::fir::MIN_CUTOFF_BITS },
            Real64 { bits: super::fir::MAX_CUTOFF_BITS },
        );
    assert(call_ensures(M::cutoff_fraction, (&m, cutoff_hz, sample_rate), raw));
}

/// Tap `n` of a design is the ideal response at its distance from the centre, or
/// the limit of that at the centre itself, weighted by the window at the same
/// distance over the window's peak.
pub proof fn taps_are_windowed_responses<M: FilterDesignMath>(
    m: M,
    n: usize,
    taps: usize,
    fc: Real64,
    beta: Real64,
    peak: Real64,
    v: Real64,
)
    requires
        is_raw_tap(m, n, taps, fc, beta, peak, v),
    ensures
        exists|x: Real64, s: Real64, taper: Real64, arg: Real64, w: Real64|
            #![trigger call_ensures(M::window_taper, (&m, x, taps), taper), call_ensures(M::weighted, (&m, s, w, peak), v), is_bessel_i0(m, arg, w)]
            {
                &&& call_ensures(M::centre_offset, (&m, n, taps), x)
                &&& if x.absolute().less(Real64 { bits: 0x3D71_9799_812D_EA11 }) {
                    call_ensures(M::centre_sinc, (&m, fc), s)
                } else {
                    call_ensures(M::sinc, (&m, fc, x), s)
                }
                &&& call_ensures(M::window_taper, (&m, x, taps), taper)
                &&& if (Real64 { bits: 0 }).less(taper) {
                    call_ensures(M::window_argument, (&m, beta, taper), arg)
                } else {
                    call_ensures(M::window_argument, (&m, beta, Real64 { bits: 0 }), arg)
                }
                &&& is_bessel_i0(m, arg, w)
                &&& call_ensures(M::weighted, (&m, s, w, peak), v)
            },
{
    let (x, s, w) = choose|x: Real64, s: Real64, w: Real64|
        #![trigger is_sinc(m, fc, x, s), is_window(m, beta, x, taps, w)]
        call_ensures(M::centre_offset, (&m, n, taps), x) && is_sinc(m, fc, x, s) && is_window(
            m,
            beta,
            x,
            taps,
            w,
        ) && call_ensures(M::weighted, (&m, s, w, peak), v);
    let (taper, arg) = choose|taper: Real64, arg: Real64|
        #![trigger call_ensures(M::window_taper, (&m, x, taps), taper), is_bessel_i0(m, arg, w)]
        call_ensures(M::window_taper, (&m, x, taps), taper) && call_ensures(
            M::window_argument,
            (&m, beta, taper.raised(Real64 { bits: 0 })),
            arg,
        ) && is_bessel_i0(m, arg, w);
    assert(call_ensures(M::window_taper, (&m, x, taps), taper));
    assert(call_ensures(M::weighted, (&m, s, w, peak), v));
}

/// A design starts from one tap for each place, all for the same cutoff, window and
/// window peak, and scales each of them by the reciprocal of their sum, or leaves
/// them where that is zero.
pub proof fn designs_scale_every_tap_alike<M: FilterDesignMath>(
    m: M,
    taps: usize,
    cutoff_hz: Real64,
    sample_rate: Real64,
    stopband_db: Real64,
    h: Seq<Real32>,
)
    requires
        is_kaiser_lowpass(m, taps, cutoff_hz, sample_rate, stopband_db, h),
    ensures
        h.len() == taps,
        exists|
            fc: Real64,
            beta: Real64,
            peak: Real64,
            raw: Seq<Real64>,
            sums: Seq<Real64>,
            scale: Real64,
        |
            #![trigger are_raw_taps(m, raw, taps, fc, beta, peak), running_sums(m, raw, sums), is_gain_scale(m, sums.last(), scale)]
            {
                &&& is_cutoff(m, cutoff_hz, sample_rate, fc)
                &&& is_kaiser_beta(m, stopband_db, beta)
                &&& is_bessel_i0(m, beta, peak)
                &&& raw.len() == taps
                &&& are_raw_taps(m, raw, taps, fc, beta, peak)
                &&& forall|n: int|
                    0 <= n < taps ==> is_raw_tap(
                        m,
                        n as usize,
                        taps,
                        fc,
                        beta,
                        peak,
                        #[trigger] raw[n],
                    )
                &&& running_sums(m, raw, sums)
                &&& sums.len() == taps + 1
                &&& sums[0].bits == 0
                &&& is_gain_scale(m, sums.last(), scale)
                &&& (Real64 { bits: 0 }).less(sums.last().absolute()) ==> call_ensures(
                    M::reciprocal,
                    (&m, sums.last()),
                    scale,
                )
                &&& !(Real64 { bits: 0 }).less(sums.last().absolute()) ==> scale.bits
                    == 0x3FF0_0000_0000_0000
                &&& forall|n: int|
                    0 <= n < taps ==> call_ensures(M::scaled, (&m, raw[n], scale), #[trigger] h[n])
            },
{
    let raw = choose|raw: Seq<Real64>| #[trigger]
        is_raw_design(m, taps, cutoff_hz, sample_rate, stopband_db, raw) && is_normalized_filter(
            m,
            raw,
            h,
        );
    let (fc, beta, peak) = choose|fc: Real64, beta: Real64, peak: Real64|
        #![trigger are_raw_taps(m, raw, taps, fc, beta, peak)]
        is_cutoff(m, cutoff_hz, sample_rate, fc) && is_kaiser_beta(m, stopband_db, beta)
            && is_bessel_i0(m, beta, peak) && raw.len() == taps && are_raw_taps(
            m,
            raw,
            taps,
            fc,
            beta,
            peak,
        );
    let (sums, scale) = choose|sums: Seq<Real64>, scale: Real64|
        #![trigger running_sums(m, raw, sums), is_gain_scale(m, sums.last(), scale)]
        running_sums(m, raw, sums) && is_gain_scale(m, sums.last(), scale) && h.len() == raw.len()
            && forall|n: int| 0 <= n < h.len() ==> scaled_gives(m, raw[n], scale, #[trigger] h[n]);
    assert forall|n: int| 0 <= n < taps implies call_ensures(
        M::scaled,
        (&m, raw[n], scale),
        #[trigger] h[n],
    ) by {
        assert(scaled_gives(m, raw[n], scale, h[n]));
    }
}

/// Whether a term is below what counts as negligible against the sum.
pub open spec fn is_found_below<M: FilterDesignMath>(m: M, term: Real64, sum: Real64, below: bool) -> bool {
    exists|lim: Real64| #[trigger]
        call_ensures(M::negligible, (&m, sum), lim) && (below <==> term.less(lim))
}

/// The Bessel series: term zero is one, each further term comes from the one before
/// it, and the sum is taken up to and with the first one that is negligible
/// against it, of at most 64 further terms.
pub proof fn the_series_is_summed_until_a_term_is_negligible<M: FilterDesignMath>(
    m: M,
    x: Real64,
    r: Real64,
)
    requires
        is_bessel_i0(m, x, r),
    ensures
        exists|terms: Seq<Real64>, sums: Seq<Real64>| #[trigger]
            bessel_partial(m, x, terms, sums) && {
                let last = terms.len() - 1;
                &&& 1 <= last <= 64
                &&& sums.len() == terms.len()
                &&& terms[0].bits == 0x3FF0_0000_0000_0000
                &&& sums[0].bits == 0x3FF0_0000_0000_0000
                &&& r == sums[last]
                &&& forall|k: int|
                    1 <= k <= last ==> call_ensures(
                        M::bessel_term,
                        (&m, terms[k - 1], x, k as u32),
                        #[trigger] terms[k],
                    ) && call_ensures(M::sum, (&m, sums[k - 1], terms[k]), sums[k])
                &&& forall|k: int|
                    1 <= k < last ==> is_found_below(m, #[trigger] terms[k], sums[k], false)
                &&& last < 64 ==> is_found_below(m, terms[last], sums[last], true)
            },
{
    let (terms, sums) = choose|terms: Seq<Real64>, sums: Seq<Real64>| #[trigger]
        bessel_partial(m, x, terms, sums) && r == sums.last() && terms.len() >= 2 && (forall|k: int|
            1 <= k < terms.len() - 1 ==> #[trigger] term_negligible(m, terms[k], sums[k], false)) && (
        terms.len() == super::fir::BESSEL_TERMS + 1 || term_negligible(
            m,
            terms.last(),
            sums.last(),
            true,
        ));
    let last = terms.len() - 1;
    assert forall|k: int| 1 <= k < last implies is_found_below(m, #[trigger] terms[k], sums[k], false) by {
        assert(term_negligible(m, terms[k], sums[k], false));
        let lim = choose|lim: Real64| #[trigger]
            negligible_gives(m, sums[k], lim) && false == terms[k].less(lim);
        assert(call_ensures(M::negligible, (&m, sums[k]), lim));
    }
    if last < 64 {
        assert(term_negligible(m, terms[last], sums[last], true));
        let lim = choose|lim: Real64| #[trigger]
            negligible_gives(m, sums[last], lim) && true == terms[last].less(lim);
        assert(call_ensures(M::negligible, (&m, sums[last]), lim));
    }
    assert forall|k: int| 1 <= k <= last implies call_ensures(
        M::bessel_term,
        (&m, terms[k - 1], x, k as u32),
        #[trigger] terms[k],
    ) && call_ensures(M::sum, (&m, sums[k - 1], terms[k]), sums[k]) by {
        assert(bessel_term_gives(m, terms[k - 1], x, k as u32, terms[k]));
        assert(sum_gives(m, sums[k - 1], terms[k], sums[k]));
    }
}

/// The kernels multiply element by element as far as all three arrays go, or as
/// eight elements go where so stated, and leave the rest of the result alone.
pub proof fn kernels_multiply_element_by_element<M: MultiplyAddMath>(
    m: M,
    a: Seq<Real32>,
    b: Seq<Real32>,
    before: Seq<Real32>,
    after: Seq<Real32>,
    n: nat,
    k: int,
)
    requires
        products_written(m, a, b, before, after, n),
        0 <= k < after.len(),
    ensures
        after.len() == before.len(),
        k < n ==> call_ensures(M::multiply_add, (&m, a[k], b[k], Real32 { bits: 0 }), after[k]),
        k >= n ==> after[k] == before[k],
        ({
            let s = shortest(a.len(), b.len(), before.len());
            &&& s <= a.len() && s <= b.len() && s <= before.len()
            &&& s == a.len() || s == b.len() || s == before.len()
        }),
        LANES == 8,
{
    if k < n {
        assert(multiply_add_gives(m, a[k], b[k], Real32 { bits: 0 }, after[k]));
    }
}

/// What comes out is kept in order, one after the other, and nothing is made up
/// where nothing came out.
pub proof fn outputs_are_kept_in_order(ys: Seq<Option<Iq>>, y: Iq)
    ensures
        super::decimator::outputs(ys.push(Some(y))) == super::decimator::outputs(ys).push(y),
        super::decimator::outputs(ys.push(None)) == super::decimator::outputs(ys),
        super::decimator::outputs(Seq::<Option<Iq>>::empty()) == Seq::<Iq>::empty(),
{
    assert(ys.push(Some(y)).drop_last() =~= ys);
    assert(ys.push(None).drop_last() =~= ys);
}

/// A new stage filters both components alike, from silence on, with the low-pass
/// that its plan asks for: so many taps, its cutoff, its input rate, and the
/// attenuation; and decimates by its factor.
pub proof fn new_stages_are_what_was_planned<M: FilterDesignMath>(
    m: M,
    plan: StagePlan,
    stopband_db: Real64,
    s: StageState,
)
    requires
        is_fresh_stage(m, plan, stopband_db, s),
    ensures
        is_kaiser_lowpass(m, plan.taps, plan.cutoff_hz, plan.input_rate, stopband_db, s.i.taps),
        s.q.taps == s.i.taps,
        s.i.factor == plan.factor,
        s.q.factor == plan.factor,
        s.i.phase == 0,
        s.q.phase == 0,
        s.i.history.len() == s.i.taps.len(),
        s.q.history.len() == s.i.taps.len(),
        forall|k: int| 0 <= k < s.i.history.len() ==> (#[trigger] s.i.history[k]).bits == 0,
        forall|k: int| 0 <= k < s.q.history.len() ==> (#[trigger] s.q.history[k]).bits == 0,
{
}

/// A run is a chain of single steps: from the first state to the last, input `k`
/// takes the channelizer from state `k` to the next, and what comes out on the way
/// is the output.
pub proof fn runs_are_chains_of_steps<M: OscillatorMath + FilterMath>(
    m: M,
    s: ChannelState,
    xs: Seq<Iq>,
    t: ChannelState,
    out: Seq<Iq>,
)
    requires
        super::decimator::produces(m, s, xs, t, out),
    ensures
        exists|states: Seq<ChannelState>, ys: Seq<Option<Iq>>|
            #![trigger super::decimator::runs(m, states, xs, ys)]
            {
                &&& super::decimator::runs(m, states, xs, ys)
                &&& states.len() == xs.len() + 1
                &&& ys.len() == xs.len()
                &&& states[0] == s
                &&& states[xs.len() as int] == t
                &&& forall|k: int|
                    0 <= k < xs.len() ==> #[trigger] steps(m, states[k], xs[k], states[k + 1], ys[k])
                &&& out == super::decimator::outputs(ys)
            },
{
    let (states, ys) = choose|states: Seq<ChannelState>, ys: Seq<Option<Iq>>| #[trigger]
        super::decimator::runs(m, states, xs, ys) && states[0] == s && states.last() == t && out
            == super::decimator::outputs(ys);
    assert(super::decimator::runs(m, states, xs, ys));
}

} // verus!

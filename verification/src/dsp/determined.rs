//! Results that are determined by their arguments.
//!
//! The contracts of this crate say which arithmetic operation is applied to which
//! values. Where each operation gives one result per argument, so does everything
//! that is built from it: the same filters, and the same output for the same
//! input, however it is cut into blocks.

use vstd::prelude::*;
use crate::ieee::{Real32, Real64};
#[allow(unused_imports)]
use super::decimator::{cascades, is_fresh_stage, output_ignores_block_boundaries, outputs};
#[allow(unused_imports)]
use super::decimator::{produces, runs, stage_absorbs, stage_emits, steps, ChannelState, StageState};
use super::filter::FilterMath;
#[allow(unused_imports)]
use super::filter::{accumulates, filters, mac_gives, FilterState};
use super::fir::FilterDesignMath;
#[allow(unused_imports)]
use super::fir::{are_raw_taps, bessel_partial, bessel_term_gives, is_bessel_i0, is_cutoff, is_gain_scale, is_kaiser_beta};
#[allow(unused_imports)]
use super::fir::{is_kaiser_lowpass, is_normalized_filter, is_raw_design, is_raw_tap, is_sinc, is_window, negligible_gives, running_sums};
#[allow(unused_imports)]
use super::fir::{scaled_gives, sum_gives, term_negligible, BESSEL_TERMS};
use super::iq::Iq;
use super::nco::{Oscillation, OscillatorMath};
#[allow(unused_imports)]
use super::nco::{advance_gives, is_initial, mixes, phase_step_gives, phasor_gives, rotate_gives, unwind_gives};
use super::plan::StagePlan;

verus! {

/// Each operation of the mixer gives one result per argument.
pub open spec fn mixing_is_a_function<M: OscillatorMath>(m: M) -> bool {
    &&& forall|o: Real64, r: Real64, a: Real64, b: Real64|
        #[trigger] phase_step_gives(m, o, r, a) && #[trigger] phase_step_gives(m, o, r, b) ==> a == b
    &&& forall|p: Real64, a: (Real32, Real32), b: (Real32, Real32)|
        #[trigger] phasor_gives(m, p, a) && #[trigger] phasor_gives(m, p, b) ==> a == b
    &&& forall|p: Real64, s: Real64, a: Real64, b: Real64|
        #[trigger] advance_gives(m, p, s, a) && #[trigger] advance_gives(m, p, s, b) ==> a == b
    &&& forall|p: Real64, a: Real64, b: Real64|
        #[trigger] unwind_gives(m, p, a) && #[trigger] unwind_gives(m, p, b) ==> a == b
    &&& forall|s: Iq, ph: (Real32, Real32), a: Iq, b: Iq|
        #[trigger] rotate_gives(m, s, ph, a) && #[trigger] rotate_gives(m, s, ph, b) ==> a == b
}

/// Multiply-accumulate gives one result per argument.
pub open spec fn filtering_is_a_function<M: FilterMath>(m: M) -> bool {
    forall|acc: Real32, tap: Real32, x: Real32, a: Real32, b: Real32|
        #[trigger] mac_gives(m, acc, tap, x, a) && #[trigger] mac_gives(m, acc, tap, x, b) ==> a == b
}

/// Each operation of the filter design gives one result per argument.
pub open spec fn design_is_a_function<M: FilterDesignMath>(m: M) -> bool {
    &&& forall|d: Real64, a: Real64, b: Real64|
        #[trigger] call_ensures(M::steep_beta, (&m, d), a) && #[trigger] call_ensures(
            M::steep_beta,
            (&m, d),
            b,
        ) ==> a == b
    &&& forall|d: Real64, a: Real64, b: Real64|
        #[trigger] call_ensures(M::moderate_beta, (&m, d), a) && #[trigger] call_ensures(
            M::moderate_beta,
            (&m, d),
            b,
        ) ==> a == b
    &&& forall|t: Real64, x: Real64, k: u32, a: Real64, b: Real64|
        #[trigger] bessel_term_gives(m, t, x, k, a) && #[trigger] bessel_term_gives(m, t, x, k, b)
            ==> a == b
    &&& forall|x: Real64, y: Real64, a: Real64, b: Real64|
        #[trigger] sum_gives(m, x, y, a) && #[trigger] sum_gives(m, x, y, b) ==> a == b
    &&& forall|s: Real64, a: Real64, b: Real64|
        #[trigger] negligible_gives(m, s, a) && #[trigger] negligible_gives(m, s, b) ==> a == b
    &&& forall|c: Real64, r: Real64, a: Real64, b: Real64|
        #[trigger] call_ensures(M::cutoff_fraction, (&m, c, r), a) && #[trigger] call_ensures(
            M::cutoff_fraction,
            (&m, c, r),
            b,
        ) ==> a == b
    &&& forall|n: usize, t: usize, a: Real64, b: Real64|
        #[trigger] call_ensures(M::centre_offset, (&m, n, t), a) && #[trigger] call_ensures(
            M::centre_offset,
            (&m, n, t),
            b,
        ) ==> a == b
    &&& forall|f: Real64, a: Real64, b: Real64|
        #[trigger] call_ensures(M::centre_sinc, (&m, f), a) && #[trigger] call_ensures(
            M::centre_sinc,
            (&m, f),
            b,
        ) ==> a == b
    &&& forall|f: Real64, x: Real64, a: Real64, b: Real64|
        #[trigger] call_ensures(M::sinc, (&m, f, x), a) && #[trigger] call_ensures(
            M::sinc,
            (&m, f, x),
            b,
        ) ==> a == b
    &&& forall|x: Real64, t: usize, a: Real64, b: Real64|
        #[trigger] call_ensures(M::window_taper, (&m, x, t), a) && #[trigger] call_ensures(
            M::window_taper,
            (&m, x, t),
            b,
        ) ==> a == b
    &&& forall|be: Real64, t: Real64, a: Real64, b: Real64|
        #[trigger] call_ensures(M::window_argument, (&m, be, t), a) && #[trigger] call_ensures(
            M::window_argument,
            (&m, be, t),
            b,
        ) ==> a == b
    &&& forall|s: Real64, w: Real64, p: Real64, a: Real64, b: Real64|
        #[trigger] call_ensures(M::weighted, (&m, s, w, p), a) && #[trigger] call_ensures(
            M::weighted,
            (&m, s, w, p),
            b,
        ) ==> a == b
    &&& forall|g: Real64, a: Real64, b: Real64|
        #[trigger] call_ensures(M::reciprocal, (&m, g), a) && #[trigger] call_ensures(
            M::reciprocal,
            (&m, g),
            b,
        ) ==> a == b
    &&& forall|t: Real64, s: Real64, a: Real32, b: Real32|
        #[trigger] scaled_gives(m, t, s, a) && #[trigger] scaled_gives(m, t, s, b) ==> a == b
}

/// The operations of the filter design do not tell the two sides of the centre
/// apart: tap `n` and tap `taps - 1 - n` are equally far from it, and `sinc` and the
/// window depend on the distance alone.
pub open spec fn design_is_mirrored<M: FilterDesignMath>(m: M, taps: usize) -> bool {
    &&& forall|n1: usize, n2: usize, x: Real64, y: Real64|
        n1 + n2 == taps - 1 && #[trigger] call_ensures(M::centre_offset, (&m, n1, taps), x)
            && #[trigger] call_ensures(M::centre_offset, (&m, n2, taps), y) ==> x.absolute()
            == y.absolute()
    &&& forall|f: Real64, x: Real64, y: Real64, a: Real64, b: Real64|
        x.absolute() == y.absolute() && #[trigger] call_ensures(M::sinc, (&m, f, x), a)
            && #[trigger] call_ensures(M::sinc, (&m, f, y), b) ==> a == b
    &&& forall|x: Real64, y: Real64, a: Real64, b: Real64|
        x.absolute() == y.absolute() && #[trigger] call_ensures(M::window_taper, (&m, x, taps), a)
            && #[trigger] call_ensures(M::window_taper, (&m, y, taps), b) ==> a == b
}

/// Mixing one sample has one outcome.
pub proof fn mixing_is_determined<M: OscillatorMath>(
    m: M,
    s: Oscillation,
    x: Iq,
    t1: Oscillation,
    y1: Iq,
    t2: Oscillation,
    y2: Iq,
)
    requires
        mixing_is_a_function(m),
        mixes(m, s, x, t1, y1),
        mixes(m, s, x, t2, y2),
    ensures
        t1 == t2,
        y1 == y2,
{
}

proof fn lemma_accumulators_agree<M: FilterMath>(
    m: M,
    taps: Seq<Real32>,
    xs: Seq<Real32>,
    a: Seq<Real32>,
    b: Seq<Real32>,
    k: int,
)
    requires
        filtering_is_a_function(m),
        accumulates(m, taps, xs, a),
        accumulates(m, taps, xs, b),
        0 <= k <= taps.len(),
    ensures
        a[k] == b[k],
    decreases k,
{
    if k > 0 {
        lemma_accumulators_agree(m, taps, xs, a, b, k - 1);
        assert(mac_gives(m, a[k - 1], taps[k - 1], xs[k - 1], a[k - 1 + 1]));
        assert(mac_gives(m, b[k - 1], taps[k - 1], xs[k - 1], b[k - 1 + 1]));
    }
}

/// Filtering one sample has one outcome.
pub proof fn filtering_is_determined<M: FilterMath>(
    m: M,
    s: FilterState,
    x: Real32,
    y1: Option<Real32>,
    y2: Option<Real32>,
)
    requires
        filtering_is_a_function(m),
        filters(m, s, x, y1),
        filters(m, s, x, y2),
    ensures
        y1 == y2,
{
    if s.emits() {
        let xs = s.after(x).history;
        let a = choose|accs: Seq<Real32>| #[trigger]
            accumulates(m, s.taps, xs, accs) && y1.unwrap() == accs.last();
        let b = choose|accs: Seq<Real32>| #[trigger]
            accumulates(m, s.taps, xs, accs) && y2.unwrap() == accs.last();
        lemma_accumulators_agree(m, s.taps, xs, a, b, s.taps.len() as int);
    }
}

proof fn lemma_values_agree<M: FilterMath>(
    m: M,
    ss: Seq<StageState>,
    vs1: Seq<Iq>,
    ts1: Seq<StageState>,
    y1: Option<Iq>,
    vs2: Seq<Iq>,
    ts2: Seq<StageState>,
    y2: Option<Iq>,
    k: int,
)
    requires
        filtering_is_a_function(m),
        cascades(m, ss, vs1, ts1, y1),
        cascades(m, ss, vs2, ts2, y2),
        vs1[0] == vs2[0],
        0 <= k < vs1.len(),
        k < vs2.len(),
    ensures
        vs1[k] == vs2[k],
    decreases k,
{
    if k > 0 {
        let j = k - 1;
        lemma_values_agree(m, ss, vs1, ts1, y1, vs2, ts2, y2, j);
        assert(stage_emits(m, ss[j], vs1[j], vs1[j + 1]));
        assert(stage_emits(m, ss[j], vs2[j], vs2[j + 1]));
        filtering_is_determined(m, ss[j].i, vs1[j].i, Some(vs1[k].i), Some(vs2[k].i));
        filtering_is_determined(m, ss[j].q, vs1[j].q, Some(vs1[k].q), Some(vs2[k].q));
    }
}

/// No run down the cascade stops where another one of the same sample goes on.
proof fn lemma_depth_at_least<M: FilterMath>(
    m: M,
    ss: Seq<StageState>,
    vs1: Seq<Iq>,
    ts1: Seq<StageState>,
    y1: Option<Iq>,
    vs2: Seq<Iq>,
    ts2: Seq<StageState>,
    y2: Option<Iq>,
)
    requires
        filtering_is_a_function(m),
        cascades(m, ss, vs1, ts1, y1),
        cascades(m, ss, vs2, ts2, y2),
        vs1[0] == vs2[0],
    ensures
        vs1.len() >= vs2.len(),
{
    if vs1.len() < vs2.len() {
        let d = vs1.len() - 1;
        assert(stage_absorbs(m, ss[d], vs1[d]));
        assert(stage_emits(m, ss[d], vs2[d], vs2[d + 1]));
    }
}

/// One sample through mixer and cascade has one outcome.
pub proof fn steps_are_determined<M: OscillatorMath + FilterMath>(
    m: M,
    s: ChannelState,
    x: Iq,
    t1: ChannelState,
    y1: Option<Iq>,
    t2: ChannelState,
    y2: Option<Iq>,
)
    requires
        mixing_is_a_function(m),
        filtering_is_a_function(m),
        steps(m, s, x, t1, y1),
        steps(m, s, x, t2, y2),
    ensures
        t1 == t2,
        y1 == y2,
{
    let vs1 = choose|vs: Seq<Iq>| #[trigger]
        cascades(m, s.stages, vs, t1.stages, y1) && mixes(m, s.osc, x, t1.osc, vs[0]);
    let vs2 = choose|vs: Seq<Iq>| #[trigger]
        cascades(m, s.stages, vs, t2.stages, y2) && mixes(m, s.osc, x, t2.osc, vs[0]);
    mixing_is_determined(m, s.osc, x, t1.osc, vs1[0], t2.osc, vs2[0]);
    let ss = s.stages;
    lemma_depth_at_least(m, ss, vs1, t1.stages, y1, vs2, t2.stages, y2);
    lemma_depth_at_least(m, ss, vs2, t2.stages, y2, vs1, t1.stages, y1);
    assert forall|k: int| 0 <= k < vs1.len() implies vs1[k] == vs2[k] by {
        lemma_values_agree(m, ss, vs1, t1.stages, y1, vs2, t2.stages, y2, k);
    }
    let depth = vs1.len() - 1;
    assert forall|k: int| 0 <= k < ss.len() implies t1.stages[k] == t2.stages[k] by {
        if k <= depth {
            assert(t1.stages[k] == ss[k].after(vs1[k]));
            assert(t2.stages[k] == ss[k].after(vs2[k]));
        } else {
            assert(t1.stages[k] == ss[k]);
            assert(t2.stages[k] == ss[k]);
        }
    }
    assert(t1.stages =~= t2.stages);
    assert(t1.osc == t2.osc);
    assert(t1 =~= t2);
}

proof fn lemma_runs_agree<M: OscillatorMath + FilterMath>(
    m: M,
    xs: Seq<Iq>,
    states1: Seq<ChannelState>,
    ys1: Seq<Option<Iq>>,
    states2: Seq<ChannelState>,
    ys2: Seq<Option<Iq>>,
    k: int,
)
    requires
        mixing_is_a_function(m),
        filtering_is_a_function(m),
        runs(m, states1, xs, ys1),
        runs(m, states2, xs, ys2),
        states1[0] == states2[0],
        0 <= k <= xs.len(),
    ensures
        states1[k] == states2[k],
        forall|j: int| 0 <= j < k ==> ys1[j] == ys2[j],
    decreases k,
{
    if k > 0 {
        let j = k - 1;
        lemma_runs_agree(m, xs, states1, ys1, states2, ys2, j);
        assert(steps(m, states1[j], xs[j], states1[j + 1], ys1[j]));
        assert(steps(m, states2[j], xs[j], states2[j + 1], ys2[j]));
        steps_are_determined(m, states1[j], xs[j], states1[k], ys1[j], states2[k], ys2[j]);
    }
}

/// The same input gives the same output: what a channelizer produces is
/// determined by its state and its input.
pub proof fn output_is_determined<M: OscillatorMath + FilterMath>(
    m: M,
    s: ChannelState,
    xs: Seq<Iq>,
    t1: ChannelState,
    out1: Seq<Iq>,
    t2: ChannelState,
    out2: Seq<Iq>,
)
    requires
        mixing_is_a_function(m),
        filtering_is_a_function(m),
        produces(m, s, xs, t1, out1),
        produces(m, s, xs, t2, out2),
    ensures
        out1 == out2,
        t1 == t2,
{
    let (states1, ys1) = choose|states: Seq<ChannelState>, ys: Seq<Option<Iq>>| #[trigger]
        runs(m, states, xs, ys) && states[0] == s && states.last() == t1 && out1 == outputs(ys);
    let (states2, ys2) = choose|states: Seq<ChannelState>, ys: Seq<Option<Iq>>| #[trigger]
        runs(m, states, xs, ys) && states[0] == s && states.last() == t2 && out2 == outputs(ys);
    lemma_runs_agree(m, xs, states1, ys1, states2, ys2, xs.len() as int);
    assert(ys1 =~= ys2);
}

/// Packet sizes do not matter: of two channelizers in the same state, one that
/// takes its input in two blocks puts out exactly what one puts out that takes
/// it in one, and both end in the same state.
pub proof fn identical_input_gives_identical_output<M: OscillatorMath + FilterMath>(
    m: M,
    s: ChannelState,
    xs: Seq<Iq>,
    u: ChannelState,
    out: Seq<Iq>,
    more_xs: Seq<Iq>,
    t: ChannelState,
    more_out: Seq<Iq>,
    whole_t: ChannelState,
    whole_out: Seq<Iq>,
)
    requires
        mixing_is_a_function(m),
        filtering_is_a_function(m),
        produces(m, s, xs, u, out),
        produces(m, u, more_xs, t, more_out),
        produces(m, s, xs + more_xs, whole_t, whole_out),
    ensures
        whole_out == out + more_out,
        whole_t == t,
{
    output_ignores_block_boundaries(m, s, xs, u, out, more_xs, t, more_out);
    output_is_determined(m, s, xs + more_xs, t, out + more_out, whole_t, whole_out);
}

proof fn lemma_series_agree<M: FilterDesignMath>(
    m: M,
    x: Real64,
    terms1: Seq<Real64>,
    sums1: Seq<Real64>,
    terms2: Seq<Real64>,
    sums2: Seq<Real64>,
    k: int,
)
    requires
        design_is_a_function(m),
        bessel_partial(m, x, terms1, sums1),
        bessel_partial(m, x, terms2, sums2),
        0 <= k < terms1.len(),
        k < terms2.len(),
    ensures
        terms1[k] == terms2[k],
        sums1[k] == sums2[k],
    decreases k,
{
    if k > 0 {
        lemma_series_agree(m, x, terms1, sums1, terms2, sums2, k - 1);
        assert(bessel_term_gives(m, terms1[k - 1], x, k as u32, terms1[k]));
        assert(bessel_term_gives(m, terms2[k - 1], x, k as u32, terms2[k]));
        assert(sum_gives(m, sums1[k - 1], terms1[k], sums1[k]));
        assert(sum_gives(m, sums2[k - 1], terms2[k], sums2[k]));
    }
}

/// `terms` and `sums` are the series at `x`, cut off where it has to be.
spec fn is_series<M: FilterDesignMath>(m: M, x: Real64, terms: Seq<Real64>, sums: Seq<Real64>) -> bool {
    &&& bessel_partial(m, x, terms, sums)
    &&& terms.len() >= 2
    &&& forall|k: int|
        1 <= k < terms.len() - 1 ==> #[trigger] term_negligible(m, terms[k], sums[k], false)
    &&& terms.len() == BESSEL_TERMS + 1 || term_negligible(m, terms.last(), sums.last(), true)
}

/// No series is cut off where another one at the same place goes on.
proof fn lemma_series_length<M: FilterDesignMath>(
    m: M,
    x: Real64,
    terms1: Seq<Real64>,
    sums1: Seq<Real64>,
    terms2: Seq<Real64>,
    sums2: Seq<Real64>,
)
    requires
        design_is_a_function(m),
        is_series(m, x, terms1, sums1),
        is_series(m, x, terms2, sums2),
    ensures
        terms1.len() >= terms2.len(),
{
    if terms1.len() < terms2.len() {
        let k = terms1.len() - 1;
        lemma_series_agree(m, x, terms1, sums1, terms2, sums2, k);
        assert(term_negligible(m, terms1[k], sums1[k], true));
        assert(term_negligible(m, terms2[k], sums2[k], false));
    }
}

proof fn lemma_bessel_determined<M: FilterDesignMath>(m: M, x: Real64, r1: Real64, r2: Real64)
    requires
        design_is_a_function(m),
        is_bessel_i0(m, x, r1),
        is_bessel_i0(m, x, r2),
    ensures
        r1 == r2,
{
    let (terms1, sums1) = choose|terms: Seq<Real64>, sums: Seq<Real64>| #[trigger]
        bessel_partial(m, x, terms, sums) && r1 == sums.last() && terms.len() >= 2 && (forall|k: int|
            1 <= k < terms.len() - 1 ==> #[trigger] term_negligible(m, terms[k], sums[k], false)) && (
        terms.len() == BESSEL_TERMS + 1 || term_negligible(m, terms.last(), sums.last(), true));
    let (terms2, sums2) = choose|terms: Seq<Real64>, sums: Seq<Real64>| #[trigger]
        bessel_partial(m, x, terms, sums) && r2 == sums.last() && terms.len() >= 2 && (forall|k: int|
            1 <= k < terms.len() - 1 ==> #[trigger] term_negligible(m, terms[k], sums[k], false)) && (
        terms.len() == BESSEL_TERMS + 1 || term_negligible(m, terms.last(), sums.last(), true));
    assert(is_series(m, x, terms1, sums1));
    assert(is_series(m, x, terms2, sums2));
    lemma_series_length(m, x, terms1, sums1, terms2, sums2);
    lemma_series_length(m, x, terms2, sums2, terms1, sums1);
    lemma_series_agree(m, x, terms1, sums1, terms2, sums2, terms1.len() - 1);
}

/// Equally far from the centre, taps before normalization agree.
proof fn lemma_raw_tap_determined<M: FilterDesignMath>(
    m: M,
    n1: usize,
    n2: usize,
    taps: usize,
    fc: Real64,
    beta: Real64,
    peak: Real64,
    v1: Real64,
    v2: Real64,
)
    requires
        design_is_a_function(m),
        n1 == n2 || n1 + n2 == taps - 1 && design_is_mirrored(m, taps),
        is_raw_tap(m, n1, taps, fc, beta, peak, v1),
        is_raw_tap(m, n2, taps, fc, beta, peak, v2),
    ensures
        v1 == v2,
{
    let (x1, s1, w1) = choose|x: Real64, s: Real64, w: Real64|
        #![trigger is_sinc(m, fc, x, s), is_window(m, beta, x, taps, w)]
        call_ensures(M::centre_offset, (&m, n1, taps), x) && is_sinc(m, fc, x, s) && is_window(
            m,
            beta,
            x,
            taps,
            w,
        ) && call_ensures(M::weighted, (&m, s, w, peak), v1);
    let (x2, s2, w2) = choose|x: Real64, s: Real64, w: Real64|
        #![trigger is_sinc(m, fc, x, s), is_window(m, beta, x, taps, w)]
        call_ensures(M::centre_offset, (&m, n2, taps), x) && is_sinc(m, fc, x, s) && is_window(
            m,
            beta,
            x,
            taps,
            w,
        ) && call_ensures(M::weighted, (&m, s, w, peak), v2);
    assert(x1.absolute() == x2.absolute());
    assert(s1 == s2);
    let zero = Real64 { bits: 0 };
    let (taper1, arg1) = choose|taper: Real64, arg: Real64|
        #![trigger call_ensures(M::window_taper, (&m, x1, taps), taper), is_bessel_i0(m, arg, w1)]
        call_ensures(M::window_taper, (&m, x1, taps), taper) && call_ensures(
            M::window_argument,
            (&m, beta, taper.raised(zero)),
            arg,
        ) && is_bessel_i0(m, arg, w1);
    let (taper2, arg2) = choose|taper: Real64, arg: Real64|
        #![trigger call_ensures(M::window_taper, (&m, x2, taps), taper), is_bessel_i0(m, arg, w2)]
        call_ensures(M::window_taper, (&m, x2, taps), taper) && call_ensures(
            M::window_argument,
            (&m, beta, taper.raised(zero)),
            arg,
        ) && is_bessel_i0(m, arg, w2);
    assert(taper1 == taper2);
    assert(arg1 == arg2);
    lemma_bessel_determined(m, arg1, w1, w2);
}

proof fn lemma_sums_agree<M: FilterDesignMath>(
    m: M,
    raw: Seq<Real64>,
    a: Seq<Real64>,
    b: Seq<Real64>,
    k: int,
)
    requires
        design_is_a_function(m),
        running_sums(m, raw, a),
        running_sums(m, raw, b),
        0 <= k <= raw.len(),
    ensures
        a[k] == b[k],
    decreases k,
{
    if k > 0 {
        lemma_sums_agree(m, raw, a, b, k - 1);
        assert(sum_gives(m, a[k - 1], raw[k - 1], a[k - 1 + 1]));
        assert(sum_gives(m, b[k - 1], raw[k - 1], b[k - 1 + 1]));
    }
}

proof fn lemma_normalized_determined<M: FilterDesignMath>(
    m: M,
    raw: Seq<Real64>,
    h1: Seq<Real32>,
    h2: Seq<Real32>,
)
    requires
        design_is_a_function(m),
        is_normalized_filter(m, raw, h1),
        is_normalized_filter(m, raw, h2),
    ensures
        h1 == h2,
{
    let (sums1, scale1) = choose|sums: Seq<Real64>, scale: Real64|
        #![trigger running_sums(m, raw, sums), is_gain_scale(m, sums.last(), scale)]
        running_sums(m, raw, sums) && is_gain_scale(m, sums.last(), scale) && h1.len() == raw.len()
            && forall|n: int| 0 <= n < h1.len() ==> scaled_gives(m, raw[n], scale, #[trigger] h1[n]);
    let (sums2, scale2) = choose|sums: Seq<Real64>, scale: Real64|
        #![trigger running_sums(m, raw, sums), is_gain_scale(m, sums.last(), scale)]
        running_sums(m, raw, sums) && is_gain_scale(m, sums.last(), scale) && h2.len() == raw.len()
            && forall|n: int| 0 <= n < h2.len() ==> scaled_gives(m, raw[n], scale, #[trigger] h2[n]);
    lemma_sums_agree(m, raw, sums1, sums2, raw.len() as int);
    assert(scale1 == scale2);
    assert forall|n: int| 0 <= n < h1.len() implies h1[n] == h2[n] by {
        assert(scaled_gives(m, raw[n], scale1, h1[n]));
        assert(scaled_gives(m, raw[n], scale2, h2[n]));
    }
    assert(h1 =~= h2);
}

/// The taps before normalization have one outcome, and under mirrored operations
/// they are mirrored themselves.
proof fn lemma_raw_design_determined<M: FilterDesignMath>(
    m: M,
    taps: usize,
    cutoff_hz: Real64,
    sample_rate: Real64,
    stopband_db: Real64,
    raw1: Seq<Real64>,
    raw2: Seq<Real64>,
)
    requires
        design_is_a_function(m),
        is_raw_design(m, taps, cutoff_hz, sample_rate, stopband_db, raw1),
        is_raw_design(m, taps, cutoff_hz, sample_rate, stopband_db, raw2),
    ensures
        raw1 == raw2,
        design_is_mirrored(m, taps) ==> forall|n: int|
            0 <= n < taps ==> #[trigger] raw1[n] == raw2[taps - 1 - n],
{
    let (fc1, beta1, peak1) = choose|fc: Real64, beta: Real64, peak: Real64|
        #![trigger are_raw_taps(m, raw1, taps, fc, beta, peak)]
        is_cutoff(m, cutoff_hz, sample_rate, fc) && is_kaiser_beta(m, stopband_db, beta)
            && is_bessel_i0(m, beta, peak) && raw1.len() == taps && are_raw_taps(
            m,
            raw1,
            taps,
            fc,
            beta,
            peak,
        );
    let (fc2, beta2, peak2) = choose|fc: Real64, beta: Real64, peak: Real64|
        #![trigger are_raw_taps(m, raw2, taps, fc, beta, peak)]
        is_cutoff(m, cutoff_hz, sample_rate, fc) && is_kaiser_beta(m, stopband_db, beta)
            && is_bessel_i0(m, beta, peak) && raw2.len() == taps && are_raw_taps(
            m,
            raw2,
            taps,
            fc,
            beta,
            peak,
        );
    assert(fc1 == fc2);
    assert(beta1 == beta2);
    lemma_bessel_determined(m, beta1, peak1, peak2);
    assert forall|n: int| 0 <= n < raw1.len() implies raw1[n] == raw2[n] by {
        lemma_raw_tap_determined(m, n as usize, n as usize, taps, fc1, beta1, peak1, raw1[n], raw2[n]);
    }
    assert(raw1 =~= raw2);
    if design_is_mirrored(m, taps) {
        assert forall|n: int| 0 <= n < taps implies #[trigger] raw1[n] == raw2[taps - 1 - n] by {
            lemma_raw_tap_determined(
                m,
                n as usize,
                (taps - 1 - n) as usize,
                taps,
                fc1,
                beta1,
                peak1,
                raw1[n],
                raw2[taps - 1 - n],
            );
        }
    }
}

/// A filter design has one outcome.
pub proof fn designs_are_determined<M: FilterDesignMath>(
    m: M,
    taps: usize,
    cutoff_hz: Real64,
    sample_rate: Real64,
    stopband_db: Real64,
    h1: Seq<Real32>,
    h2: Seq<Real32>,
)
    requires
        design_is_a_function(m),
        is_kaiser_lowpass(m, taps, cutoff_hz, sample_rate, stopband_db, h1),
        is_kaiser_lowpass(m, taps, cutoff_hz, sample_rate, stopband_db, h2),
    ensures
        h1 == h2,
{
    let raw1 = choose|raw: Seq<Real64>| #[trigger]
        is_raw_design(m, taps, cutoff_hz, sample_rate, stopband_db, raw) && is_normalized_filter(
            m,
            raw,
            h1,
        );
    let raw2 = choose|raw: Seq<Real64>| #[trigger]
        is_raw_design(m, taps, cutoff_hz, sample_rate, stopband_db, raw) && is_normalized_filter(
            m,
            raw,
            h2,
        );
    lemma_raw_design_determined(m, taps, cutoff_hz, sample_rate, stopband_db, raw1, raw2);
    lemma_normalized_determined(m, raw1, h1, h2);
}

/// A design has linear phase: where its operations do not tell the two sides of
/// the centre apart, its taps are symmetric about it.
pub proof fn designs_have_linear_phase<M: FilterDesignMath>(
    m: M,
    taps: usize,
    cutoff_hz: Real64,
    sample_rate: Real64,
    stopband_db: Real64,
    h: Seq<Real32>,
    k: int,
)
    requires
        design_is_a_function(m),
        design_is_mirrored(m, taps),
        is_kaiser_lowpass(m, taps, cutoff_hz, sample_rate, stopband_db, h),
        0 <= k < taps,
    ensures
        h.len() == taps,
        h[k] == h[taps - 1 - k],
{
    let raw = choose|raw: Seq<Real64>| #[trigger]
        is_raw_design(m, taps, cutoff_hz, sample_rate, stopband_db, raw) && is_normalized_filter(
            m,
            raw,
            h,
        );
    lemma_raw_design_determined(m, taps, cutoff_hz, sample_rate, stopband_db, raw, raw);
    let (sums, scale) = choose|sums: Seq<Real64>, scale: Real64|
        #![trigger running_sums(m, raw, sums), is_gain_scale(m, sums.last(), scale)]
        running_sums(m, raw, sums) && is_gain_scale(m, sums.last(), scale) && h.len() == raw.len()
            && forall|n: int| 0 <= n < h.len() ==> scaled_gives(m, raw[n], scale, #[trigger] h[n]);
    let j = taps - 1 - k;
    assert(raw[k] == raw[j]);
    assert(scaled_gives(m, raw[k], scale, h[k]));
    assert(scaled_gives(m, raw[j], scale, h[j]));
}

/// Channelizers that are built alike are alike.
pub proof fn construction_is_determined<M: OscillatorMath + FilterDesignMath>(
    m: M,
    plan: Seq<StagePlan>,
    offset_hz: Real64,
    input_rate: Real64,
    stopband_db: Real64,
    s1: ChannelState,
    s2: ChannelState,
)
    requires
        mixing_is_a_function(m),
        design_is_a_function(m),
        is_initial(m, offset_hz, input_rate, s1.osc),
        is_initial(m, offset_hz, input_rate, s2.osc),
        s1.stages.len() == plan.len(),
        s2.stages.len() == plan.len(),
        forall|k: int|
            0 <= k < plan.len() ==> is_fresh_stage(m, plan[k], stopband_db, #[trigger] s1.stages[k]),
        forall|k: int|
            0 <= k < plan.len() ==> is_fresh_stage(m, plan[k], stopband_db, #[trigger] s2.stages[k]),
    ensures
        s1 == s2,
{
    assert(s1.osc == s2.osc);
    assert forall|k: int| 0 <= k < plan.len() implies s1.stages[k] == s2.stages[k] by {
        let p = plan[k];
        let a = s1.stages[k];
        let b = s2.stages[k];
        designs_are_determined(
            m,
            p.taps,
            p.cutoff_hz,
            p.input_rate,
            stopband_db,
            a.i.taps,
            b.i.taps,
        );
    }
    assert(s1.stages =~= s2.stages);
    assert(s1 =~= s2);
}

} // verus!

//! FIR filter design (Kaiser window) and a stateful decimating filter.
//!
//! The tap estimate makes the cost of a narrow transition explicit, so that a
//! planner can reject it. The delay line belongs to the filter instance and is
//! never cleared at a block boundary.

use vstd::prelude::*;
#[allow(unused_imports)]
use vstd::arithmetic::power2::lemma2_to64;
#[allow(unused_imports)]
use crate::algebra::Ring;
use crate::ieee::{Real32, Real64};
#[allow(unused_imports)]
use crate::ieee::{casts_are_monotonic, INF64};

verus! {

/// One in double precision.
pub const ONE_BITS: u64 = 0x3FF0_0000_0000_0000;

/// Attenuation above which the steep window formula holds: 50 dB.
pub const STEEP_DB_BITS: u64 = 0x4049_0000_0000_0000;

/// Attenuation from which the window is not rectangular: 21 dB.
pub const MODERATE_DB_BITS: u64 = 0x4035_0000_0000_0000;

/// Lowest cutoff as a fraction of the sample rate: `1e-9`.
pub const MIN_CUTOFF_BITS: u64 = 0x3E11_2E0B_E826_D695;

/// Highest cutoff as a fraction of the sample rate: `0.499999`.
pub const MAX_CUTOFF_BITS: u64 = 0x3FDF_FFFB_CE42_17D3;

/// Distance from the centre tap that counts as zero: `1e-12`.
pub const CENTRE_BITS: u64 = 0x3D71_9799_812D_EA11;

/// Terms of the Bessel series that are summed at most.
pub const BESSEL_TERMS: u32 = 64;

/// Floating-point arithmetic of the filter design.
pub trait FilterDesignMath {
    /// `(stopband_db - 8) / (2.285 * 2 * PI * transition_hz / sample_rate)`,
    /// rounded up.
    fn tap_estimate(&self, stopband_db: Real64, transition_hz: Real64, sample_rate: Real64) -> Real64;

    /// `0.1102 * (stopband_db - 8.7)`.
    fn steep_beta(&self, stopband_db: Real64) -> Real64;

    /// `0.5842 * a^0.4 + 0.07886 * a` with `a = stopband_db - 21`.
    fn moderate_beta(&self, stopband_db: Real64) -> Real64;

    /// `term * t * t` with `t = x / (2 * k)`.
    fn bessel_term(&self, term: Real64, x: Real64, k: u32) -> Real64;

    /// `a + b`.
    fn sum(&self, a: Real64, b: Real64) -> Real64;

    /// `1e-18 * sum`.
    fn negligible(&self, sum: Real64) -> Real64;

    /// `cutoff_hz / sample_rate`.
    fn cutoff_fraction(&self, cutoff_hz: Real64, sample_rate: Real64) -> Real64;

    /// `n - (taps - 1) / 2`.
    fn centre_offset(&self, n: usize, taps: usize) -> Real64;

    /// `2 * fc`.
    fn centre_sinc(&self, fc: Real64) -> Real64;

    /// `sin(2 * PI * fc * x) / (PI * x)`.
    fn sinc(&self, fc: Real64, x: Real64) -> Real64;

    /// `1 - r * r` with `r = 2 * x / (taps - 1)`.
    fn window_taper(&self, x: Real64, taps: usize) -> Real64;

    /// `beta * sqrt(taper)`.
    fn window_argument(&self, beta: Real64, taper: Real64) -> Real64;

    /// `sinc * (window / window_peak)`.
    fn weighted(&self, sinc: Real64, window: Real64, window_peak: Real64) -> Real64;

    /// `1 / gain`.
    fn reciprocal(&self, gain: Real64) -> Real64;

    /// `tap * scale`, rounded to single precision.
    fn scaled(&self, tap: Real64, scale: Real64) -> Real32;
}

/// `n` is what `m` gives for the tap estimate.
pub open spec fn tap_estimate_gives<M: FilterDesignMath>(
    m: M,
    stopband_db: Real64,
    transition_hz: Real64,
    sample_rate: Real64,
    n: Real64,
) -> bool {
    call_ensures(M::tap_estimate, (&m, stopband_db, transition_hz, sample_rate), n)
}

/// `c` is what `m` gives for `a + b`.
pub open spec fn sum_gives<M: FilterDesignMath>(m: M, a: Real64, b: Real64, c: Real64) -> bool {
    call_ensures(M::sum, (&m, a, b), c)
}

/// `next` is what `m` gives for the series term after `term`.
pub open spec fn bessel_term_gives<M: FilterDesignMath>(
    m: M,
    term: Real64,
    x: Real64,
    k: u32,
    next: Real64,
) -> bool {
    call_ensures(M::bessel_term, (&m, term, x, k), next)
}

/// `lim` is what `m` gives for the size below which a term adds nothing.
pub open spec fn negligible_gives<M: FilterDesignMath>(m: M, sum: Real64, lim: Real64) -> bool {
    call_ensures(M::negligible, (&m, sum), lim)
}

/// `h` is what `m` gives for `tap` times `scale`.
pub open spec fn scaled_gives<M: FilterDesignMath>(m: M, tap: Real64, scale: Real64, h: Real32) -> bool {
    call_ensures(M::scaled, (&m, tap, scale), h)
}

/// `terms` and `sums` are successive terms and partial sums of the Bessel series
/// at `x`, from term zero on.
pub open spec fn bessel_partial<M: FilterDesignMath>(
    m: M,
    x: Real64,
    terms: Seq<Real64>,
    sums: Seq<Real64>,
) -> bool {
    &&& terms.len() == sums.len()
    &&& 1 <= terms.len() <= BESSEL_TERMS + 1
    &&& terms[0].bits == ONE_BITS
    &&& sums[0].bits == ONE_BITS
    &&& forall|k: int|
        1 <= k < terms.len() ==> #[trigger] bessel_term_gives(m, terms[k - 1], x, k as u32, terms[k])
    &&& forall|k: int| 1 <= k < terms.len() ==> #[trigger] sum_gives(m, sums[k - 1], terms[k], sums[k])
}

/// The series is cut off after a term so small against its sum.
pub open spec fn term_negligible<M: FilterDesignMath>(m: M, term: Real64, sum: Real64, is: bool) -> bool {
    exists|lim: Real64| #[trigger] negligible_gives(m, sum, lim) && is == term.less(lim)
}

/// `r` is the modified Bessel function of order zero at `x`, by its power series:
/// summed until a term is negligible, and for so many terms at most.
pub open spec fn is_bessel_i0<M: FilterDesignMath>(m: M, x: Real64, r: Real64) -> bool {
    exists|terms: Seq<Real64>, sums: Seq<Real64>| #[trigger]
        bessel_partial(m, x, terms, sums) && r == sums.last() && terms.len() >= 2 && (forall|k: int|
            1 <= k < terms.len() - 1 ==> #[trigger] term_negligible(m, terms[k], sums[k], false)) && (
        terms.len() == BESSEL_TERMS + 1 || term_negligible(m, terms.last(), sums.last(), true))
}

/// Modified Bessel function of the first kind, order zero.
fn bessel_i0<M: FilterDesignMath>(x: Real64, m: &M) -> (r: Real64)
    ensures
        is_bessel_i0(*m, x, r),
{
    let mut sum = Real64 { bits: ONE_BITS };
    let mut term = Real64 { bits: ONE_BITS };
    let ghost mut terms: Seq<Real64> = seq![term];
    let ghost mut sums: Seq<Real64> = seq![sum];
    let mut k: u32 = 0;
    while k < BESSEL_TERMS
        invariant
            k <= BESSEL_TERMS,
            terms.len() == k + 1,
            bessel_partial(*m, x, terms, sums),
            term == terms.last(),
            sum == sums.last(),
            forall|j: int|
                1 <= j < terms.len() ==> #[trigger] term_negligible(*m, terms[j], sums[j], false),
        decreases BESSEL_TERMS - k,
    {
        let next = m.bessel_term(term, x, k + 1);
        let total = m.sum(sum, next);
        let lim = m.negligible(total);
        let done = next.lt(lim);
        proof {
            assert(bessel_term_gives(*m, terms[k as int], x, (k + 1) as u32, next));
            assert(sum_gives(*m, sums[k as int], next, total));
            assert(negligible_gives(*m, total, lim));
            let old_terms = terms;
            let old_sums = sums;
            terms = terms.push(next);
            sums = sums.push(total);
            assert forall|j: int| 1 <= j < terms.len() implies #[trigger] bessel_term_gives(
                *m,
                terms[j - 1],
                x,
                j as u32,
                terms[j],
            ) by {
                if j <= k {
                    assert(bessel_term_gives(*m, old_terms[j - 1], x, j as u32, old_terms[j]));
                }
            }
            assert forall|j: int| 1 <= j < terms.len() implies #[trigger] sum_gives(
                *m,
                sums[j - 1],
                terms[j],
                sums[j],
            ) by {
                if j <= k {
                    assert(sum_gives(*m, old_sums[j - 1], old_terms[j], old_sums[j]));
                }
            }
            assert(term_negligible(*m, next, total, done));
            assert forall|j: int| 1 <= j < terms.len() - 1 implies #[trigger] term_negligible(
                *m,
                terms[j],
                sums[j],
                false,
            ) by {
                assert(term_negligible(*m, old_terms[j], old_sums[j], false));
            }
        }
        term = next;
        sum = total;
        k = k + 1;
        if done {
            assert(term_negligible(*m, terms.last(), sums.last(), true));
            assert(bessel_partial(*m, x, terms, sums));
            assert(is_bessel_i0(*m, x, sums.last()));
            return sum;
        }
    }
    sum
}

/// `beta` is the window shape for a stopband attenuation.
pub open spec fn is_kaiser_beta<M: FilterDesignMath>(m: M, stopband_db: Real64, beta: Real64) -> bool {
    if (Real64 { bits: STEEP_DB_BITS }).less(stopband_db) {
        call_ensures(M::steep_beta, (&m, stopband_db), beta)
    } else if (Real64 { bits: MODERATE_DB_BITS }).at_most(stopband_db) {
        call_ensures(M::moderate_beta, (&m, stopband_db), beta)
    } else {
        beta.bits == 0
    }
}

/// Kaiser window shape parameter for a target stopband attenuation.
pub fn kaiser_beta<M: FilterDesignMath>(stopband_db: Real64, m: &M) -> (beta: Real64)
    ensures
        is_kaiser_beta(*m, stopband_db, beta),
{
    let steep = Real64 { bits: STEEP_DB_BITS };
    let moderate = Real64 { bits: MODERATE_DB_BITS };
    if steep.lt(stopband_db) {
        m.steep_beta(stopband_db)
    } else if moderate.le(stopband_db) {
        m.moderate_beta(stopband_db)
    } else {
        Real64 { bits: 0 }
    }
}

/// Half of `usize::MAX` as a double: the largest estimate that is accepted.
pub open spec fn estimate_limit() -> Real64 {
    Real64 {
        bits: if usize::MAX as u64 > 0xFFFF_FFFF {
            0x43E0_0000_0000_0000
        } else {
            0x41DF_FFFF_FFC0_0000
        },
    }
}

/// The tap count for an estimate: two more, made odd; `usize::MAX` where the
/// estimate is no usable number.
pub open spec fn taps_from(n: Real64) -> int {
    if !n.finite() || n.less(Real64 { bits: 0 }) || estimate_limit().less(n) {
        usize::MAX as int
    } else {
        let t = n.cast_unsigned(usize::MAX as nat) as int + 2;
        if t % 2 == 0 {
            t + 1
        } else {
            t
        }
    }
}

proof fn lemma_estimate_limit(n: Real64)
    requires
        n.at_most(estimate_limit()),
    ensures
        n.cast_unsigned(usize::MAX as nat) + 3 <= usize::MAX,
{
    casts_are_monotonic(n, estimate_limit(), usize::MAX as nat);
    lemma2_to64();
    let lim = estimate_limit();
    if usize::MAX as u64 > 0xFFFF_FFFF {
        assert(lim.mantissa() == 0x10_0000_0000_0000);
        assert(lim.exponent() == 11);
        assert(lim.whole() == 0x8000_0000_0000_0000);
    } else {
        assert(lim.mantissa() == 0x1F_FFFF_FFC0_0000);
        assert(lim.exponent() == -22);
        assert(lim.whole() == 0x7FFF_FFFF);
    }
}

/// A tap count is always odd, so that the filter has an integer group delay, and
/// at least three.
pub proof fn tap_counts_are_odd(n: Real64)
    ensures
        taps_from(n) % 2 == 1,
        3 <= taps_from(n) <= usize::MAX,
{
    assert(usize::MAX as int % 2 == 1 && usize::MAX >= 3) by {
        assert(usize::MAX == 0xFFFF_FFFF || usize::MAX == 0xFFFF_FFFF_FFFF_FFFF);
    }
    if n.finite() && !n.less(Real64 { bits: 0 }) && !estimate_limit().less(n) {
        lemma_estimate_limit(n);
    }
}

/// `taps` is the tap count for an attenuation over a transition at a rate.
pub open spec fn is_tap_count<M: FilterDesignMath>(
    m: M,
    stopband_db: Real64,
    transition_hz: Real64,
    sample_rate: Real64,
    taps: usize,
) -> bool {
    let zero = Real64 { bits: 0 };
    if transition_hz.at_most(zero) || sample_rate.at_most(zero) {
        taps == usize::MAX
    } else {
        exists|n: Real64| #[trigger]
            tap_estimate_gives(m, stopband_db, transition_hz, sample_rate, n) && taps == taps_from(n)
    }
}

/// The tap count for an estimate.
pub fn taps_for_estimate(n: Real64) -> (taps: usize)
    ensures
        taps == taps_from(n),
{
    let zero = Real64 { bits: 0 };
    let limit = Real64 {
        bits: if usize::MAX as u64 > 0xFFFF_FFFF {
            0x43E0_0000_0000_0000
        } else {
            0x41DF_FFFF_FFC0_0000
        },
    };
    if !n.is_finite() || n.lt(zero) || limit.lt(n) {
        return usize::MAX;
    }
    proof {
        lemma_estimate_limit(n);
    }
    let taps: usize = n.as_usize() + 2;
    if taps % 2 == 0 {
        taps + 1
    } else {
        taps
    }
}

/// Kaiser's estimate of the taps needed for `stopband_db` over a transition of
/// `transition_hz` at `sample_rate`: odd, at least three, and `usize::MAX` where
/// no filter can do it.
pub fn estimate_taps<M: FilterDesignMath>(
    stopband_db: Real64,
    transition_hz: Real64,
    sample_rate: Real64,
    m: &M,
) -> (taps: usize)
    ensures
        is_tap_count(*m, stopband_db, transition_hz, sample_rate, taps),
        taps % 2 == 1,
        taps >= 3,
{
    proof {
        tap_counts_are_odd(Real64 { bits: INF64 });
    }
    let zero = Real64 { bits: 0 };
    if transition_hz.le(zero) || sample_rate.le(zero) {
        return usize::MAX;
    }
    let n = m.tap_estimate(stopband_db, transition_hz, sample_rate);
    proof {
        assert(tap_estimate_gives(*m, stopband_db, transition_hz, sample_rate, n));
        tap_counts_are_odd(n);
    }
    taps_for_estimate(n)
}

/// The cutoff fraction of a design.
pub open spec fn is_cutoff<M: FilterDesignMath>(
    m: M,
    cutoff_hz: Real64,
    sample_rate: Real64,
    fc: Real64,
) -> bool {
    exists|raw: Real64| #[trigger]
        call_ensures(M::cutoff_fraction, (&m, cutoff_hz, sample_rate), raw) && fc == raw.clamped(
            Real64 { bits: MIN_CUTOFF_BITS },
            Real64 { bits: MAX_CUTOFF_BITS },
        )
}

/// `s` is the ideal low-pass response at distance `x` from the centre tap, its
/// limit where `x` is zero.
pub open spec fn is_sinc<M: FilterDesignMath>(m: M, fc: Real64, x: Real64, s: Real64) -> bool {
    if x.absolute().less(Real64 { bits: CENTRE_BITS }) {
        call_ensures(M::centre_sinc, (&m, fc), s)
    } else {
        call_ensures(M::sinc, (&m, fc, x), s)
    }
}

/// `w` is the Kaiser window at distance `x` from the centre tap, before it is
/// divided by its peak; a taper that rounding took below zero counts as zero.
pub open spec fn is_window<M: FilterDesignMath>(m: M, beta: Real64, x: Real64, taps: usize, w: Real64) -> bool {
    exists|taper: Real64, arg: Real64|
        #![trigger call_ensures(M::window_taper, (&m, x, taps), taper), is_bessel_i0(m, arg, w)]
        call_ensures(M::window_taper, (&m, x, taps), taper) && call_ensures(
            M::window_argument,
            (&m, beta, taper.raised(Real64 { bits: 0 })),
            arg,
        ) && is_bessel_i0(m, arg, w)
}

/// `v` is tap `n` of a design before normalization.
pub open spec fn is_raw_tap<M: FilterDesignMath>(
    m: M,
    n: usize,
    taps: usize,
    fc: Real64,
    beta: Real64,
    peak: Real64,
    v: Real64,
) -> bool {
    exists|x: Real64, s: Real64, w: Real64|
        #![trigger is_sinc(m, fc, x, s), is_window(m, beta, x, taps, w)]
        call_ensures(M::centre_offset, (&m, n, taps), x) && is_sinc(m, fc, x, s) && is_window(
            m,
            beta,
            x,
            taps,
            w,
        ) && call_ensures(M::weighted, (&m, s, w, peak), v)
}

/// `sums` are the running sums of `raw`, from zero on.
pub open spec fn running_sums<M: FilterDesignMath>(m: M, raw: Seq<Real64>, sums: Seq<Real64>) -> bool {
    &&& sums.len() == raw.len() + 1
    &&& sums[0].bits == 0
    &&& forall|k: int| 0 <= k < raw.len() ==> #[trigger] sum_gives(m, sums[k], raw[k], sums[k + 1])
}

/// `scale` brings a filter with the given sum of taps to unity gain.
pub open spec fn is_gain_scale<M: FilterDesignMath>(m: M, gain: Real64, scale: Real64) -> bool {
    if (Real64 { bits: 0 }).less(gain.absolute()) {
        call_ensures(M::reciprocal, (&m, gain), scale)
    } else {
        scale.bits == ONE_BITS
    }
}

/// `raw` are the taps of a design before normalization.
pub open spec fn are_raw_taps<M: FilterDesignMath>(
    m: M,
    raw: Seq<Real64>,
    taps: usize,
    fc: Real64,
    beta: Real64,
    peak: Real64,
) -> bool {
    forall|n: int|
        0 <= n < raw.len() ==> is_raw_tap(m, n as usize, taps, fc, beta, peak, #[trigger] raw[n])
}

/// `h` is `raw` brought to unity gain.
pub open spec fn is_normalized_filter<M: FilterDesignMath>(
    m: M,
    raw: Seq<Real64>,
    h: Seq<Real32>,
) -> bool {
    exists|sums: Seq<Real64>, scale: Real64|
        #![trigger running_sums(m, raw, sums), is_gain_scale(m, sums.last(), scale)]
        running_sums(m, raw, sums) && is_gain_scale(m, sums.last(), scale) && h.len() == raw.len()
            && forall|n: int| 0 <= n < h.len() ==> scaled_gives(m, raw[n], scale, #[trigger] h[n])
}

/// `raw` are the windowed sinc taps for the given parameters, before
/// normalization.
pub open spec fn is_raw_design<M: FilterDesignMath>(
    m: M,
    taps: usize,
    cutoff_hz: Real64,
    sample_rate: Real64,
    stopband_db: Real64,
    raw: Seq<Real64>,
) -> bool {
    exists|fc: Real64, beta: Real64, peak: Real64|
        #![trigger are_raw_taps(m, raw, taps, fc, beta, peak)]
        is_cutoff(m, cutoff_hz, sample_rate, fc) && is_kaiser_beta(m, stopband_db, beta)
            && is_bessel_i0(m, beta, peak) && raw.len() == taps && are_raw_taps(
            m,
            raw,
            taps,
            fc,
            beta,
            peak,
        )
}

/// `h` is the Kaiser low-pass design for the given parameters: windowed sinc
/// taps, scaled so that they sum to one.
pub open spec fn is_kaiser_lowpass<M: FilterDesignMath>(
    m: M,
    taps: usize,
    cutoff_hz: Real64,
    sample_rate: Real64,
    stopband_db: Real64,
    h: Seq<Real32>,
) -> bool {
    exists|raw: Seq<Real64>| #[trigger]
        is_raw_design(m, taps, cutoff_hz, sample_rate, stopband_db, raw) && is_normalized_filter(
            m,
            raw,
            h,
        )
}

/// Tap `n` before normalization.
fn raw_tap<M: FilterDesignMath>(
    n: usize,
    taps: usize,
    fc: Real64,
    beta: Real64,
    peak: Real64,
    m: &M,
) -> (v: Real64)
    ensures
        is_raw_tap(*m, n, taps, fc, beta, peak, v),
{
    let x = m.centre_offset(n, taps);
    let s = if x.abs().lt(Real64 { bits: CENTRE_BITS }) {
        m.centre_sinc(fc)
    } else {
        m.sinc(fc, x)
    };
    let taper = m.window_taper(x, taps);
    let arg = m.window_argument(beta, taper.max(Real64 { bits: 0 }));
    let w = bessel_i0(arg, m);
    assert(is_sinc(*m, fc, x, s));
    assert(call_ensures(M::window_taper, (m, x, taps), taper));
    assert(is_window(*m, beta, x, taps, w));
    m.weighted(s, w, peak)
}

/// Bring raw taps to unity gain.
fn normalize_taps<M: FilterDesignMath>(raw: &Vec<Real64>, m: &M) -> (h: Vec<Real32>)
    ensures
        is_normalized_filter(*m, raw@, h@),
{
    let mut gain = Real64 { bits: 0 };
    let ghost mut sums: Seq<Real64> = seq![gain];
    let mut n: usize = 0;
    while n < raw.len()
        invariant
            n <= raw@.len(),
            sums.len() == n + 1,
            sums[0].bits == 0,
            sums.last() == gain,
            forall|k: int| 0 <= k < n ==> #[trigger] sum_gives(*m, sums[k], raw@[k], sums[k + 1]),
        decreases raw.len() - n,
    {
        let next = m.sum(gain, raw[n]);
        proof {
            assert(sum_gives(*m, gain, raw@[n as int], next));
            let grown = sums.push(next);
            assert forall|k: int| 0 <= k < n + 1 implies #[trigger] sum_gives(
                *m,
                grown[k],
                raw@[k],
                grown[k + 1],
            ) by {
                if k < n {
                    assert(sum_gives(*m, sums[k], raw@[k], sums[k + 1]));
                }
            }
            sums = grown;
        }
        gain = next;
        n = n + 1;
    }
    let zero = Real64 { bits: 0 };
    let scale = if zero.lt(gain.abs()) {
        m.reciprocal(gain)
    } else {
        Real64 { bits: ONE_BITS }
    };
    assert(is_gain_scale(*m, sums.last(), scale));
    assert(running_sums(*m, raw@, sums));
    let mut h: Vec<Real32> = Vec::new();
    let mut k: usize = 0;
    while k < raw.len()
        invariant
            k <= raw@.len(),
            h@.len() == k,
            forall|j: int| 0 <= j < k ==> scaled_gives(*m, raw@[j], scale, #[trigger] h@[j]),
        decreases raw.len() - k,
    {
        let v = m.scaled(raw[k], scale);
        assert(scaled_gives(*m, raw@[k as int], scale, v));
        h.push(v);
        k = k + 1;
    }
    h
}

/// Design a linear-phase low-pass filter with unity gain at zero frequency.
///
/// `cutoff_hz` is the half-amplitude point; `stopband_db` sets the level of the
/// window's sidelobes.
pub fn kaiser_lowpass<M: FilterDesignMath>(
    taps: usize,
    cutoff_hz: Real64,
    sample_rate: Real64,
    stopband_db: Real64,
    m: &M,
) -> (h: Vec<Real32>)
    requires
        taps >= 3,
        taps % 2 == 1,
        (Real64 { bits: 0 }).less(sample_rate),
    ensures
        h@.len() == taps,
        is_kaiser_lowpass(*m, taps, cutoff_hz, sample_rate, stopband_db, h@),
{
    let fraction = m.cutoff_fraction(cutoff_hz, sample_rate);
    let fc = fraction.clamp(Real64 { bits: MIN_CUTOFF_BITS }, Real64 { bits: MAX_CUTOFF_BITS });
    assert(call_ensures(M::cutoff_fraction, (m, cutoff_hz, sample_rate), fraction));
    assert(is_cutoff(*m, cutoff_hz, sample_rate, fc));
    let beta = kaiser_beta(stopband_db, m);
    let peak = bessel_i0(beta, m);
    let mut raw: Vec<Real64> = Vec::new();
    let mut n: usize = 0;
    while n < taps
        invariant
            n <= taps,
            raw@.len() == n,
            are_raw_taps(*m, raw@, taps, fc, beta, peak),
        decreases taps - n,
    {
        let v = raw_tap(n, taps, fc, beta, peak, m);
        raw.push(v);
        n = n + 1;
    }
    assert(is_raw_design(*m, taps, cutoff_hz, sample_rate, stopband_db, raw@));
    normalize_taps(&raw, m)
}

/// Bringing `raw` to unity gain rounds nowhere: sums, the reciprocal of the gain
/// and the scaled taps have the values that they stand for, and the gain is not
/// zero.
pub open spec fn normalizes_exactly<M: FilterDesignMath, T>(
    m: M,
    ring: Ring<T>,
    wide: spec_fn(Real64) -> T,
    narrow: spec_fn(Real32) -> T,
    raw: Seq<Real64>,
) -> bool {
    &&& wide(Real64 { bits: 0 }) == ring.zero
    &&& forall|sums: Seq<Real64>| #[trigger]
        running_sums(m, raw, sums) ==> {
            &&& forall|k: int|
                0 <= k < raw.len() ==> wide(#[trigger] sums[k + 1]) == ring.sum(
                    wide(sums[k]),
                    wide(raw[k]),
                )
            &&& forall|scale: Real64| #[trigger]
                is_gain_scale(m, sums.last(), scale) ==> {
                    &&& ring.product(wide(scale), wide(sums.last())) == ring.one
                    &&& forall|n: int, h: Real32|
                        0 <= n < raw.len() && #[trigger] scaled_gives(m, raw[n], scale, h) ==> narrow(h)
                            == ring.product(wide(raw[n]), wide(scale))
                }
        }
}

/// A running sum ends at the total.
proof fn lemma_sums_total<T>(
    ring: Ring<T>,
    wide: spec_fn(Real64) -> T,
    raw: Seq<Real64>,
    sums: Seq<Real64>,
    k: int,
)
    requires
        sums.len() == raw.len() + 1,
        wide(sums[0]) == ring.zero,
        forall|j: int|
            0 <= j < raw.len() ==> wide(#[trigger] sums[j + 1]) == ring.sum(wide(sums[j]), wide(raw[j])),
        0 <= k <= raw.len(),
    ensures
        wide(sums[k]) == ring.total(raw.take(k).map_values(wide)),
    decreases k,
{
    let vs = raw.take(k).map_values(wide);
    if k > 0 {
        lemma_sums_total(ring, wide, raw, sums, k - 1);
        assert(vs.drop_last() =~= raw.take(k - 1).map_values(wide));
        assert(wide(sums[k - 1 + 1]) == ring.sum(wide(sums[k - 1]), wide(raw[k - 1])));
    }
}

/// A design has unity gain at zero frequency: where its normalization rounds
/// nowhere, the taps sum to one.
pub proof fn designs_have_unity_gain<M: FilterDesignMath, T>(
    m: M,
    ring: Ring<T>,
    wide: spec_fn(Real64) -> T,
    narrow: spec_fn(Real32) -> T,
    taps: usize,
    cutoff_hz: Real64,
    sample_rate: Real64,
    stopband_db: Real64,
    h: Seq<Real32>,
)
    requires
        ring.is_commutative_ring(),
        is_kaiser_lowpass(m, taps, cutoff_hz, sample_rate, stopband_db, h),
        forall|raw: Seq<Real64>| #[trigger]
            is_raw_design(m, taps, cutoff_hz, sample_rate, stopband_db, raw) ==> normalizes_exactly(
                m,
                ring,
                wide,
                narrow,
                raw,
            ),
    ensures
        h.len() == taps,
        ring.total(h.map_values(narrow)) == ring.one,
{
    let raw = choose|raw: Seq<Real64>| #[trigger]
        is_raw_design(m, taps, cutoff_hz, sample_rate, stopband_db, raw) && is_normalized_filter(
            m,
            raw,
            h,
        );
    let (sums, scale) = choose|sums: Seq<Real64>, scale: Real64|
        #![trigger running_sums(m, raw, sums), is_gain_scale(m, sums.last(), scale)]
        running_sums(m, raw, sums) && is_gain_scale(m, sums.last(), scale) && h.len() == raw.len()
            && forall|n: int| 0 <= n < h.len() ==> scaled_gives(m, raw[n], scale, #[trigger] h[n]);
    assert(normalizes_exactly(m, ring, wide, narrow, raw));
    let vs = raw.map_values(wide);
    let c = wide(scale);
    assert(sums[0] == (Real64 { bits: 0 }));
    lemma_sums_total(ring, wide, raw, sums, raw.len() as int);
    assert(raw.take(raw.len() as int) =~= raw);
    ring.lemma_total_scales(vs, c);
    assert forall|n: int| 0 <= n < h.len() implies narrow(h[n]) == ring.product(vs[n], c) by {
        assert(scaled_gives(m, raw[n], scale, h[n]));
    }
    assert(h.map_values(narrow) =~= vs.map_values(|x: T| ring.product(x, c)));
}

} // verus!

//! Frequency measurement: where is the tone?
//!
//! The estimator removes the mean, applies a Hann window, transforms with zero
//! padding, finds the strongest bin of a signed band and interpolates around it.
//! A band that holds only leakage from a component somewhere else is reported as
//! empty rather than as a made-up frequency.

use vstd::prelude::*;
use crate::ieee::{Real32, Real64};
use super::fft::{fft_in_place, FftMath};
#[allow(unused_imports)]
use super::fft::{is_fft, is_power_of_two, zipped, Complex};
use super::fir::ONE_BITS;
use super::iq::{envelope, Iq, LevelMath};
#[allow(unused_imports)]
use super::iq::is_envelope;

verus! {

/// How far below the strongest component of the spectrum the peak of a band may
/// lie: -40 dB.
pub const BAND_SIGNIFICANCE_BITS: u64 = 0xC044_0000_0000_0000;

/// Curvature that counts as flat: `1e-12`.
pub const FLAT_BITS: u64 = 0x3D71_9799_812D_EA11;

/// Smallest magnitude whose logarithm is taken: `1e-30`.
pub const LOG_FLOOR_BITS: u64 = 0x39B4_484B_FEEB_C2A0;

/// Smallest magnitude that is divided by: the smallest normal number.
pub const RATIO_FLOOR_BITS: u64 = 0x0010_0000_0000_0000;

/// Minus one in double precision.
pub const MINUS_ONE_BITS: u64 = 0xBFF0_0000_0000_0000;

/// Fewest samples that are measured.
pub const MIN_SIGNAL: usize = 8;

/// Floating-point arithmetic of the estimator.
pub trait ToneMath {
    /// `sum + x`.
    fn accumulate(&self, sum: Real64, x: Real32) -> Real64;

    /// `sum / n`.
    fn average(&self, sum: Real64, n: usize) -> Real64;

    /// `0.5 - 0.5 * cos(2 * PI * k / (n - 1))`.
    fn hann(&self, k: usize, n: usize) -> Real64;

    /// `(x - mean) * w`.
    fn windowed(&self, x: Real32, mean: Real64, w: Real64) -> Real64;

    /// `sqrt(re * re + im * im)`.
    fn spectral_magnitude(&self, re: Real64, im: Real64) -> Real64;

    /// `sample_rate / len`.
    fn bin_width(&self, sample_rate: Real64, len: usize) -> Real64;

    /// `f / bin_hz`.
    fn bin_number(&self, f: Real64, bin_hz: Real64) -> Real64;

    /// `20 * log10(a / b)`.
    fn decibel_ratio(&self, a: Real64, b: Real64) -> Real64;

    /// Natural logarithm of `a`.
    fn log_magnitude(&self, a: Real64) -> Real64;

    /// `y0 - 2 * y1 + y2`.
    fn curvature(&self, y0: Real64, y1: Real64, y2: Real64) -> Real64;

    /// `0.5 * (y0 - y2) / curvature`.
    fn vertex(&self, y0: Real64, y2: Real64, curvature: Real64) -> Real64;

    /// `(bin + delta) * bin_hz`.
    fn bin_frequency(&self, bin: i64, delta: Real64, bin_hz: Real64) -> Real64;
}

/// `next` is what `m` gives for `sum + x`.
pub open spec fn accumulate_gives<M: ToneMath>(m: M, sum: Real64, x: Real32, next: Real64) -> bool {
    call_ensures(M::accumulate, (&m, sum, x), next)
}

/// `v` is what `m` gives for `x` less its mean, weighted for place `k` of `n`.
pub open spec fn windowed_gives<M: ToneMath>(
    m: M,
    x: Real32,
    mean: Real64,
    w: Real64,
    v: Real64,
) -> bool {
    call_ensures(M::windowed, (&m, x, mean, w), v)
}

/// `w` is what `m` gives for the window at place `k` of `n`.
pub open spec fn hann_gives<M: ToneMath>(m: M, k: usize, n: usize, w: Real64) -> bool {
    call_ensures(M::hann, (&m, k, n), w)
}

/// `a` is what `m` gives for the magnitude of `c`.
pub open spec fn magnitude_gives<M: ToneMath>(m: M, c: Complex, a: Real64) -> bool {
    call_ensures(M::spectral_magnitude, (&m, c.re, c.im), a)
}

/// The in-phase components of a signal.
pub open spec fn in_phase(signal: Seq<Iq>) -> Seq<Real32> {
    signal.map_values(|s: Iq| s.i)
}

/// The quadrature components of a signal.
pub open spec fn quadrature(signal: Seq<Iq>) -> Seq<Real32> {
    signal.map_values(|s: Iq| s.q)
}

/// `sums` are the running sums of `xs`, from zero on.
pub open spec fn running_sums<M: ToneMath>(m: M, xs: Seq<Real32>, sums: Seq<Real64>) -> bool {
    &&& sums.len() == xs.len() + 1
    &&& sums[0].bits == 0
    &&& forall|k: int| 0 <= k < xs.len() ==> #[trigger] accumulate_gives(m, sums[k], xs[k], sums[k + 1])
}

/// `mean` is the mean of `xs`.
pub open spec fn is_mean<M: ToneMath>(m: M, xs: Seq<Real32>, mean: Real64) -> bool {
    exists|sums: Seq<Real64>| #[trigger]
        running_sums(m, xs, sums) && call_ensures(
            M::average,
            (&m, sums.last(), xs.len() as usize),
            mean,
        )
}

/// `mean` is what is taken off `xs` before the window: the mean, or nothing.
pub open spec fn is_reference<M: ToneMath>(m: M, xs: Seq<Real32>, keep_dc: bool, mean: Real64) -> bool {
    if keep_dc {
        mean.bits == 0
    } else {
        is_mean(m, xs, mean)
    }
}

/// `c` is sample `s`, at place `k` of `n`, less the mean and windowed.
pub open spec fn is_windowed_sample<M: ToneMath>(
    m: M,
    s: Iq,
    mean_i: Real64,
    mean_q: Real64,
    k: usize,
    n: usize,
    c: Complex,
) -> bool {
    exists|w: Real64| #[trigger]
        hann_gives(m, k, n, w) && windowed_gives(m, s.i, mean_i, w, c.re) && windowed_gives(
            m,
            s.q,
            mean_q,
            w,
            c.im,
        )
}

/// The length that `n` samples are padded to: the first power of two that holds
/// them twice.
pub open spec fn is_padded_len(n: nat, len: nat) -> bool {
    is_power_of_two(len) && 2 * n <= len < 4 * n
}

/// `cs` is the windowed signal, padded with zeros.
pub open spec fn is_prepared<M: ToneMath>(
    m: M,
    signal: Seq<Iq>,
    mean_i: Real64,
    mean_q: Real64,
    cs: Seq<Complex>,
) -> bool {
    &&& is_padded_len(signal.len(), cs.len())
    &&& forall|k: int|
        0 <= k < signal.len() ==> is_windowed_sample(
            m,
            signal[k],
            mean_i,
            mean_q,
            k as usize,
            signal.len() as usize,
            #[trigger] cs[k],
        )
    &&& forall|k: int|
        signal.len() <= k < cs.len() ==> (#[trigger] cs[k]).re.bits == 0 && cs[k].im.bits == 0
}

/// `mags` are the magnitudes of `ys`.
pub open spec fn are_magnitudes<M: ToneMath>(m: M, ys: Seq<Complex>, mags: Seq<Real64>) -> bool {
    &&& mags.len() == ys.len()
    &&& forall|k: int| 0 <= k < ys.len() ==> magnitude_gives(m, ys[k], #[trigger] mags[k])
}

/// `mags` is the magnitude spectrum of `signal`.
pub open spec fn is_spectrum<M: ToneMath + FftMath>(
    m: M,
    signal: Seq<Iq>,
    keep_dc: bool,
    mags: Seq<Real64>,
) -> bool {
    exists|mean_i: Real64, mean_q: Real64, cs: Seq<Complex>, ys: Seq<Complex>|
        #![trigger is_prepared(m, signal, mean_i, mean_q, cs), is_fft(m, cs, ys)]
        is_reference(m, in_phase(signal), keep_dc, mean_i) && is_reference(
            m,
            quadrature(signal),
            keep_dc,
            mean_q,
        ) && is_prepared(m, signal, mean_i, mean_q, cs) && is_fft(m, cs, ys) && are_magnitudes(
            m,
            ys,
            mags,
        )
}

/// Where in a spectrum of `len` bins the signed bin `k` stands: negative
/// frequencies live in the upper half.
pub open spec fn bin_index(k: int, len: int) -> int {
    if k >= 0 {
        k
    } else {
        len + k
    }
}

/// The magnitude of signed bin `k`.
pub open spec fn magnitude_at(mags: Seq<Real64>, k: int) -> Real64 {
    mags[bin_index(k, mags.len() as int)]
}

/// The strongest bin of `lo..=hi`, the first of several.
pub open spec fn strongest_bin(mags: Seq<Real64>, lo: int, hi: int) -> int
    decreases hi - lo,
{
    if hi <= lo {
        lo
    } else {
        let best = strongest_bin(mags, lo, hi - 1);
        if magnitude_at(mags, best).less(magnitude_at(mags, hi)) {
            hi
        } else {
            best
        }
    }
}

/// The strongest of the first `n` magnitudes, and at least zero.
pub open spec fn strongest(mags: Seq<Real64>, n: nat) -> Real64
    decreases n,
{
    if n == 0 {
        Real64 { bits: 0 }
    } else {
        let before = strongest(mags, (n - 1) as nat);
        if before.less(mags[n - 1]) {
            mags[n - 1]
        } else {
            before
        }
    }
}

/// `v` confined to `-half..=half`.
pub open spec fn confined(v: int, half: int) -> int {
    if v < -half {
        -half
    } else if v > half {
        half
    } else {
        v
    }
}

/// `delta` is the vertex of the parabola through three log magnitudes, in bins
/// from the middle one and at most one bin away.
pub open spec fn is_vertex<M: ToneMath>(m: M, y0: Real64, y1: Real64, y2: Real64, delta: Real64) -> bool {
    exists|curve: Real64| #[trigger]
        call_ensures(M::curvature, (&m, y0, y1, y2), curve) && if curve.absolute().less(
            Real64 { bits: FLAT_BITS },
        ) {
            delta.bits == 0
        } else {
            exists|raw: Real64| #[trigger]
                call_ensures(M::vertex, (&m, y0, y2, curve), raw) && delta == raw.clamped(
                    Real64 { bits: MINUS_ONE_BITS },
                    Real64 { bits: ONE_BITS },
                )
        }
}

/// `y` is what `m` gives for the logarithm of a magnitude, which is taken to be at
/// least the floor.
pub open spec fn log_gives<M: ToneMath>(m: M, a: Real64, y: Real64) -> bool {
    call_ensures(M::log_magnitude, (&m, a.raised(Real64 { bits: LOG_FLOOR_BITS })), y)
}

/// `db` is what `m` gives for `peak` over `reference`, which is taken to be at
/// least the floor.
pub open spec fn ratio_gives<M: ToneMath>(m: M, peak: Real64, reference: Real64, db: Real64) -> bool {
    call_ensures(
        M::decibel_ratio,
        (&m, peak, reference.raised(Real64 { bits: RATIO_FLOOR_BITS })),
        db,
    )
}

/// `f` is the frequency of the peak around bin `best`, interpolated.
pub open spec fn is_peak_frequency<M: ToneMath>(
    m: M,
    mags: Seq<Real64>,
    best: int,
    bin_hz: Real64,
    f: Real64,
) -> bool {
    exists|y0: Real64, y1: Real64, y2: Real64, delta: Real64|
        #![trigger is_vertex(m, y0, y1, y2, delta)]
        log_gives(m, magnitude_at(mags, best - 1), y0) && log_gives(
            m,
            magnitude_at(mags, best),
            y1,
        ) && log_gives(m, magnitude_at(mags, best + 1), y2) && is_vertex(m, y0, y1, y2, delta)
            && call_ensures(M::bin_frequency, (&m, best as i64, delta, bin_hz), f)
}

/// `r` is what bins `lo..=hi` of a spectrum tell: nothing where the band is
/// empty, carries no energy, or lies too far below the strongest component of
/// the whole spectrum; the frequency of its strongest bin otherwise.
pub open spec fn is_band_reading<M: ToneMath>(
    m: M,
    mags: Seq<Real64>,
    bin_hz: Real64,
    lo: int,
    hi: int,
    r: Option<Real64>,
) -> bool {
    let best = strongest_bin(mags, lo, hi);
    let peak = magnitude_at(mags, best);
    if lo > hi || peak.at_most(Real64 { bits: 0 }) {
        r is None
    } else {
        exists|db: Real64| #[trigger]
            ratio_gives(m, peak, strongest(mags, mags.len()), db) && if db.less(
                Real64 { bits: BAND_SIGNIFICANCE_BITS },
            ) {
                r is None
            } else {
                r matches Some(f) && is_peak_frequency(m, mags, best, bin_hz, f)
            }
    }
}

/// `r` is what a spectrum tells of the band from `min_hz` to `max_hz`.
pub open spec fn is_reading<M: ToneMath>(
    m: M,
    mags: Seq<Real64>,
    sample_rate: Real64,
    min_hz: Real64,
    max_hz: Real64,
    r: Option<Real64>,
) -> bool {
    exists|bin_hz: Real64, lo: Real64, hi: Real64|
        #![trigger call_ensures(M::bin_number, (&m, min_hz, bin_hz), lo), call_ensures(M::bin_number, (&m, max_hz, bin_hz), hi)]
        {
            let half = (mags.len() / 2) as int;
            &&& call_ensures(M::bin_width, (&m, sample_rate, mags.len() as usize), bin_hz)
            &&& call_ensures(M::bin_number, (&m, min_hz, bin_hz), lo)
            &&& call_ensures(M::bin_number, (&m, max_hz, bin_hz), hi)
            &&& is_band_reading(
                m,
                mags,
                bin_hz,
                confined(lo.round_signed(), half),
                confined(hi.round_signed(), half),
                r,
            )
        }
}

/// There is nothing to measure: too short a signal, no rate, or an empty band.
pub open spec fn unmeasurable(n: nat, sample_rate: Real64, min_hz: Real64, max_hz: Real64) -> bool {
    n < MIN_SIGNAL || sample_rate.at_most(Real64 { bits: 0 }) || max_hz.at_most(min_hz)
}

/// `r` is the dominant frequency of `signal` between `min_hz` and `max_hz`.
pub open spec fn is_estimate<M: ToneMath + FftMath>(
    m: M,
    signal: Seq<Iq>,
    keep_dc: bool,
    sample_rate: Real64,
    min_hz: Real64,
    max_hz: Real64,
    r: Option<Real64>,
) -> bool {
    if unmeasurable(signal.len(), sample_rate, min_hz, max_hz) {
        r is None
    } else {
        exists|mags: Seq<Real64>| #[trigger]
            is_spectrum(m, signal, keep_dc, mags) && is_reading(
                m,
                mags,
                sample_rate,
                min_hz,
                max_hz,
                r,
            )
    }
}

/// The mean of one component of a signal.
fn component_mean<M: ToneMath>(signal: &[Iq], of_q: bool, m: &M) -> (mean: Real64)
    ensures
        is_mean(
            *m,
            if of_q {
                quadrature(signal@)
            } else {
                in_phase(signal@)
            },
            mean,
        ),
{
    let ghost xs = if of_q {
        quadrature(signal@)
    } else {
        in_phase(signal@)
    };
    let mut sum = Real64 { bits: 0 };
    let ghost mut sums: Seq<Real64> = seq![sum];
    let mut k: usize = 0;
    while k < signal.len()
        invariant
            k <= signal@.len(),
            xs == if of_q {
                quadrature(signal@)
            } else {
                in_phase(signal@)
            },
            sums.len() == k + 1,
            sums[0].bits == 0,
            sums.last() == sum,
            forall|j: int| 0 <= j < k ==> #[trigger] accumulate_gives(*m, sums[j], xs[j], sums[j + 1]),
        decreases signal.len() - k,
    {
        let x: Real32 = if of_q {
            signal[k].q
        } else {
            signal[k].i
        };
        let next = m.accumulate(sum, x);
        proof {
            assert(x == xs[k as int]);
            assert(accumulate_gives(*m, sum, x, next));
            let grown = sums.push(next);
            assert forall|j: int| 0 <= j < k + 1 implies #[trigger] accumulate_gives(
                *m,
                grown[j],
                xs[j],
                grown[j + 1],
            ) by {
                if j < k {
                    assert(accumulate_gives(*m, sums[j], xs[j], sums[j + 1]));
                }
            }
            sums = grown;
        }
        sum = next;
        k = k + 1;
    }
    assert(running_sums(*m, xs, sums));
    m.average(sum, signal.len())
}

/// The first power of two that is at least `2 * n`.
fn padded_len(n: usize) -> (len: usize)
    requires
        n >= 1,
        4 * n <= usize::MAX,
    ensures
        is_padded_len(n as nat, len as nat),
{
    let mut len: usize = 1;
    while len < 2 * n
        invariant
            1 <= len < 4 * n,
            n >= 1,
            4 * n <= usize::MAX,
            is_power_of_two(len as nat),
        decreases 4 * n - len,
    {
        len = len * 2;
    }
    len
}

/// Window the signal and pad it with zeros.
fn prepare<M: ToneMath>(
    signal: &[Iq],
    mean_i: Real64,
    mean_q: Real64,
    m: &M,
) -> (r: (Vec<Real64>, Vec<Real64>))
    requires
        signal@.len() >= 1,
        8 * signal@.len() <= usize::MAX,
    ensures
        r.0@.len() == r.1@.len(),
        is_prepared(*m, signal@, mean_i, mean_q, zipped(r.0@, r.1@)),
{
    let n: usize = signal.len();
    let len: usize = padded_len(n);
    let mut re: Vec<Real64> = Vec::new();
    let mut im: Vec<Real64> = Vec::new();
    let mut k: usize = 0;
    while k < len
        invariant
            n == signal@.len(),
            n == signal.len(),
            k <= len,
            re@.len() == k,
            im@.len() == k,
            forall|j: int|
                0 <= j < k && j < n ==> is_windowed_sample(
                    *m,
                    signal@[j],
                    mean_i,
                    mean_q,
                    j as usize,
                    n,
                    #[trigger] zipped(re@, im@)[j],
                ),
            forall|j: int|
                n <= j < k ==> (#[trigger] zipped(re@, im@)[j]).re.bits == 0 && zipped(
                    re@,
                    im@,
                )[j].im.bits == 0,
        decreases len - k,
    {
        let ghost before = zipped(re@, im@);
        let (vr, vi): (Real64, Real64) = if k < n {
            let s: Iq = signal[k];
            let w = m.hann(k, n);
            let vr = m.windowed(s.i, mean_i, w);
            let vi = m.windowed(s.q, mean_q, w);
            proof {
                assert(hann_gives(*m, k, n, w));
                assert(windowed_gives(*m, s.i, mean_i, w, vr));
                assert(windowed_gives(*m, s.q, mean_q, w, vi));
                assert(is_windowed_sample(
                    *m,
                    signal@[k as int],
                    mean_i,
                    mean_q,
                    k,
                    n,
                    (Complex { re: vr, im: vi }),
                ));
            }
            (vr, vi)
        } else {
            (Real64 { bits: 0 }, Real64 { bits: 0 })
        };
        re.push(vr);
        im.push(vi);
        proof {
            let now = zipped(re@, im@);
            assert forall|j: int| 0 <= j < k implies now[j] == before[j] by {}
            assert(now[k as int] == (Complex { re: vr, im: vi }));
        }
        k = k + 1;
    }
    (re, im)
}

/// The magnitudes of a spectrum.
fn magnitudes<M: ToneMath>(re: &Vec<Real64>, im: &Vec<Real64>, m: &M) -> (mags: Vec<Real64>)
    requires
        re@.len() == im@.len(),
    ensures
        are_magnitudes(*m, zipped(re@, im@), mags@),
{
    let mut mags: Vec<Real64> = Vec::new();
    let mut k: usize = 0;
    while k < re.len()
        invariant
            re@.len() == im@.len(),
            k <= re@.len(),
            mags@.len() == k,
            forall|j: int| 0 <= j < k ==> magnitude_gives(*m, zipped(re@, im@)[j], #[trigger] mags@[j]),
        decreases re.len() - k,
    {
        let a = m.spectral_magnitude(re[k], im[k]);
        assert(magnitude_gives(*m, zipped(re@, im@)[k as int], a));
        mags.push(a);
        k = k + 1;
    }
    mags
}

/// The magnitude of signed bin `k`.
fn read_bin(mags: &Vec<Real64>, k: i64) -> (a: Real64)
    requires
        0 <= bin_index(k as int, mags@.len() as int) < mags@.len(),
        mags@.len() <= usize::MAX / 2,
        -(mags@.len() as int) <= k,
    ensures
        a == magnitude_at(mags@, k as int),
{
    let len: usize = mags.len();
    if k >= 0 {
        mags[k as usize]
    } else {
        mags[len - ((-k) as usize)]
    }
}

/// The strongest bin of `lo..=hi`.
fn find_strongest(mags: &Vec<Real64>, lo: i64, hi: i64) -> (best: i64)
    requires
        4 <= mags@.len() <= usize::MAX / 2,
        -(mags@.len() / 2) <= lo <= hi <= mags@.len() / 2,
    ensures
        best == strongest_bin(mags@, lo as int, hi as int),
        lo <= best <= hi,
{
    let mut best: i64 = lo;
    let mut peak = read_bin(mags, lo);
    let mut k: i64 = lo;
    while k < hi
        invariant
            4 <= mags@.len() <= usize::MAX / 2,
            -(mags@.len() / 2) <= lo <= best <= k <= hi <= mags@.len() / 2,
            best == strongest_bin(mags@, lo as int, k as int),
            peak == magnitude_at(mags@, best as int),
        decreases hi - k,
    {
        k = k + 1;
        let a = read_bin(mags, k);
        if peak.lt(a) {
            best = k;
            peak = a;
        }
    }
    best
}

/// The strongest magnitude of a spectrum.
fn strongest_magnitude(mags: &Vec<Real64>) -> (a: Real64)
    ensures
        a == strongest(mags@, mags@.len()),
{
    let mut a = Real64 { bits: 0 };
    let mut k: usize = 0;
    while k < mags.len()
        invariant
            k <= mags@.len(),
            a == strongest(mags@, k as nat),
        decreases mags.len() - k,
    {
        if a.lt(mags[k]) {
            a = mags[k];
        }
        k = k + 1;
    }
    a
}

/// Confine a bin number to `-half..=half`.
fn confine(v: i64, half: i64) -> (r: i64)
    requires
        half >= 0,
    ensures
        r == confined(v as int, half as int),
{
    if v < -half {
        -half
    } else if v > half {
        half
    } else {
        v
    }
}

/// Interpolate the frequency of the peak around bin `best`.
fn peak_frequency<M: ToneMath>(mags: &Vec<Real64>, best: i64, bin_hz: Real64, m: &M) -> (f: Real64)
    requires
        4 <= mags@.len() <= usize::MAX / 2,
        -(mags@.len() / 2) <= best <= mags@.len() / 2,
    ensures
        is_peak_frequency(*m, mags@, best as int, bin_hz, f),
{
    let floor = Real64 { bits: LOG_FLOOR_BITS };
    let y0 = m.log_magnitude(read_bin(mags, best - 1).max(floor));
    let y1 = m.log_magnitude(read_bin(mags, best).max(floor));
    let y2 = m.log_magnitude(read_bin(mags, best + 1).max(floor));
    assert(log_gives(*m, magnitude_at(mags@, best - 1), y0));
    assert(log_gives(*m, magnitude_at(mags@, best as int), y1));
    assert(log_gives(*m, magnitude_at(mags@, best + 1), y2));
    let curve = m.curvature(y0, y1, y2);
    assert(call_ensures(M::curvature, (m, y0, y1, y2), curve));
    let delta = if curve.abs().lt(Real64 { bits: FLAT_BITS }) {
        Real64 { bits: 0 }
    } else {
        let raw = m.vertex(y0, y2, curve);
        assert(call_ensures(M::vertex, (m, y0, y2, curve), raw));
        raw.clamp(Real64 { bits: MINUS_ONE_BITS }, Real64 { bits: ONE_BITS })
    };
    assert(is_vertex(*m, y0, y1, y2, delta));
    m.bin_frequency(best, delta, bin_hz)
}

/// Read the dominant frequency between `min_hz` and `max_hz` off a magnitude
/// spectrum.
pub fn read_band<M: ToneMath>(
    mags: &Vec<Real64>,
    sample_rate: Real64,
    min_hz: Real64,
    max_hz: Real64,
    m: &M,
) -> (r: Option<Real64>)
    requires
        4 <= mags@.len() <= usize::MAX / 2,
    ensures
        is_reading(*m, mags@, sample_rate, min_hz, max_hz, r),
{
    let bin_hz = m.bin_width(sample_rate, mags.len());
    let half: i64 = (mags.len() / 2) as i64;
    let lo = m.bin_number(min_hz, bin_hz);
    let hi = m.bin_number(max_hz, bin_hz);
    assert(call_ensures(M::bin_number, (m, min_hz, bin_hz), lo));
    assert(call_ensures(M::bin_number, (m, max_hz, bin_hz), hi));
    let k_lo: i64 = confine(lo.round_i64(), half);
    let k_hi: i64 = confine(hi.round_i64(), half);
    let r = read_bins(mags, bin_hz, k_lo, k_hi, m);
    assert(is_band_reading(*m, mags@, bin_hz, k_lo as int, k_hi as int, r));
    r
}

/// Read the dominant frequency of bins `k_lo..=k_hi` off a spectrum.
fn read_bins<M: ToneMath>(mags: &Vec<Real64>, bin_hz: Real64, k_lo: i64, k_hi: i64, m: &M) -> (r:
    Option<Real64>)
    requires
        4 <= mags@.len() <= usize::MAX / 2,
        -(mags@.len() / 2) <= k_lo <= mags@.len() / 2,
        -(mags@.len() / 2) <= k_hi <= mags@.len() / 2,
    ensures
        is_band_reading(*m, mags@, bin_hz, k_lo as int, k_hi as int, r),
{
    if k_lo > k_hi {
        return None;
    }
    let best: i64 = find_strongest(mags, k_lo, k_hi);
    let peak = read_bin(mags, best);
    if peak.le(Real64 { bits: 0 }) {
        return None;
    }
    let reference = strongest_magnitude(mags).max(Real64 { bits: RATIO_FLOOR_BITS });
    let db = m.decibel_ratio(peak, reference);
    assert(ratio_gives(*m, peak, strongest(mags@, mags@.len()), db));
    if db.lt(Real64 { bits: BAND_SIGNIFICANCE_BITS }) {
        return None;
    }
    Some(peak_frequency(mags, best, bin_hz, m))
}

/// The magnitude spectrum of a signal.
fn spectrum<M: ToneMath + FftMath>(signal: &[Iq], keep_dc: bool, m: &M) -> (mags: Vec<Real64>)
    requires
        signal@.len() >= MIN_SIGNAL,
        8 * signal@.len() <= usize::MAX,
    ensures
        is_spectrum(*m, signal@, keep_dc, mags@),
        4 <= mags@.len() <= usize::MAX / 2,
{
    let zero = Real64 { bits: 0 };
    let mean_i = if keep_dc {
        zero
    } else {
        component_mean(signal, false, m)
    };
    let mean_q = if keep_dc {
        zero
    } else {
        component_mean(signal, true, m)
    };
    let (mut re, mut im) = prepare(signal, mean_i, mean_q, m);
    let ghost cs = zipped(re@, im@);
    fft_in_place(re.as_mut_slice(), im.as_mut_slice(), m);
    let mags = magnitudes(&re, &im, m);
    proof {
        assert(is_prepared(*m, signal@, mean_i, mean_q, cs));
        assert(is_fft(*m, cs, zipped(re@, im@)));
        assert(is_reference(*m, in_phase(signal@), keep_dc, mean_i));
        assert(is_reference(*m, quadrature(signal@), keep_dc, mean_q));
    }
    mags
}

/// Estimate the dominant frequency, with or without removal of the mean.
fn estimate<M: ToneMath + FftMath>(
    signal: &[Iq],
    keep_dc: bool,
    sample_rate: Real64,
    min_hz: Real64,
    max_hz: Real64,
    m: &M,
) -> (r: Option<Real64>)
    requires
        8 * signal@.len() <= usize::MAX,
    ensures
        is_estimate(*m, signal@, keep_dc, sample_rate, min_hz, max_hz, r),
{
    if signal.len() < MIN_SIGNAL || sample_rate.le(Real64 { bits: 0 }) || max_hz.le(min_hz) {
        return None;
    }
    let mags = spectrum(signal, keep_dc, m);
    read_band(&mags, sample_rate, min_hz, max_hz, m)
}

/// Estimate the dominant frequency in `signal` within `min_hz..=max_hz`.
///
/// The band is signed: for a complex signal a negative frequency is a distinct
/// thing. Returns `None` when the band is empty, the signal is too short to
/// measure, or nothing in the band carries energy. The length bound is one that
/// every slice of samples in memory meets.
pub fn estimate_frequency<M: ToneMath + FftMath>(
    signal: &[Iq],
    sample_rate: Real64,
    min_hz: Real64,
    max_hz: Real64,
    m: &M,
) -> (r: Option<Real64>)
    requires
        8 * signal@.len() <= usize::MAX,
    ensures
        is_estimate(*m, signal@, false, sample_rate, min_hz, max_hz, r),
{
    estimate(signal, false, sample_rate, min_hz, max_hz, m)
}

/// As [`estimate_frequency`], but with the mean left in: a carrier at the centre
/// of the channel counts as a component at zero.
pub fn estimate_frequency_keeping_dc<M: ToneMath + FftMath>(
    signal: &[Iq],
    sample_rate: Real64,
    min_hz: Real64,
    max_hz: Real64,
    m: &M,
) -> (r: Option<Real64>)
    requires
        8 * signal@.len() <= usize::MAX,
    ensures
        is_estimate(*m, signal@, true, sample_rate, min_hz, max_hz, r),
{
    estimate(signal, true, sample_rate, min_hz, max_hz, m)
}

/// The modulation tone of an amplitude-modulated signal: the dominant frequency
/// of its envelope.
pub fn envelope_tone_hz<M: ToneMath + FftMath + LevelMath>(
    iq: &[Iq],
    sample_rate: Real64,
    min_hz: Real64,
    max_hz: Real64,
    m: &M,
) -> (r: Option<Real64>)
    requires
        8 * iq@.len() <= usize::MAX,
    ensures
        exists|env: Seq<Iq>| #[trigger]
            is_envelope(*m, iq@, env) && is_estimate(
                *m,
                env,
                false,
                sample_rate,
                min_hz,
                max_hz,
                r,
            ),
{
    let env = envelope(iq, m);
    assert(is_envelope(*m, iq@, env@));
    estimate_frequency(env.as_slice(), sample_rate, min_hz, max_hz, m)
}

/// The bin that is picked is the strongest of its band: none of the others is
/// stronger, and none before it is as strong.
pub proof fn picked_bin_is_the_strongest(mags: Seq<Real64>, lo: int, hi: int, k: int)
    requires
        lo <= k <= hi,
        forall|j: int| lo <= j <= hi ==> !(#[trigger] magnitude_at(mags, j)).nan(),
    ensures
        lo <= strongest_bin(mags, lo, hi) <= hi,
        magnitude_at(mags, k).at_most(magnitude_at(mags, strongest_bin(mags, lo, hi))),
        k < strongest_bin(mags, lo, hi) ==> magnitude_at(mags, k).less(
            magnitude_at(mags, strongest_bin(mags, lo, hi)),
        ),
    decreases hi - lo,
{
    assert(!magnitude_at(mags, hi).nan());
    assert(!magnitude_at(mags, k).nan());
    if hi > lo {
        let j = if k < hi {
            k
        } else {
            lo
        };
        picked_bin_is_the_strongest(mags, lo, hi - 1, j);
        assert(!magnitude_at(mags, strongest_bin(mags, lo, hi - 1)).nan());
    }
}

} // verus!

//! What a frequency reading promises, in terms of the bins of the spectrum.

use vstd::prelude::*;
use crate::ieee::Real64;
use super::fft::{Complex, FftMath};
#[allow(unused_imports)]
use super::fft::{is_fft, is_power_of_two};
use super::iq::{Iq, LevelMath};
#[allow(unused_imports)]
use super::iq::is_envelope;
use super::tone::ToneMath;
#[allow(unused_imports)]
use super::tone::{accumulate_gives, are_magnitudes, confined, hann_gives, in_phase, is_band_reading, is_estimate};
#[allow(unused_imports)]
use super::tone::{is_peak_frequency, is_prepared, is_reading, is_reference, is_spectrum, is_vertex};
#[allow(unused_imports)]
use super::tone::{is_windowed_sample, log_gives, magnitude_at, magnitude_gives, quadrature, ratio_gives, running_sums};
#[allow(unused_imports)]
use super::tone::{strongest, strongest_bin, windowed_gives};

verus! {

/// The magnitude of the component at signed bin `k`: bin zero is the centre, and
/// negative frequencies are held in the upper half of the spectrum.
pub open spec fn component(mags: Seq<Real64>, k: int) -> Real64 {
    mags[if k < 0 {
        mags.len() + k
    } else {
        k
    }]
}

/// Bin `best` is the strongest of those from `lo` to `hi` that exist, as far as
/// half the spectrum to either side.
pub open spec fn is_strongest_between(mags: Seq<Real64>, lo: int, hi: int, best: int) -> bool {
    &&& lo <= best <= hi
    &&& -(mags.len() / 2) <= best <= mags.len() / 2
    &&& forall|k: int|
        lo <= k <= hi && -(mags.len() / 2) <= k <= mags.len() / 2 ==> !component(mags, best).less(
            #[trigger] component(mags, k),
        )
}

/// `top` is at least as strong as every bin of the spectrum, and one of them or
/// zero.
pub open spec fn is_overall_strongest(mags: Seq<Real64>, top: Real64) -> bool {
    &&& forall|i: int| 0 <= i < mags.len() ==> !top.less(#[trigger] mags[i])
    &&& top == (Real64 { bits: 0 }) || mags.contains(top)
}

/// `f` is the frequency of the peak at bin `best`: the bin, moved by the vertex of
/// the parabola through the logarithms of it and its two neighbours, which is at
/// most one bin away, times the width of a bin.
pub open spec fn is_interpolated<M: ToneMath>(
    m: M,
    mags: Seq<Real64>,
    best: int,
    bin_hz: Real64,
    f: Real64,
) -> bool {
    exists|y0: Real64, y1: Real64, y2: Real64, curve: Real64, delta: Real64|
        #![trigger call_ensures(M::curvature, (&m, y0, y1, y2), curve), call_ensures(M::bin_frequency, (&m, best as i64, delta, bin_hz), f)]
        {
            let floor = Real64 { bits: 0x39B4_484B_FEEB_C2A0 };
            let minus_one = Real64 { bits: 0xBFF0_0000_0000_0000 };
            let one = Real64 { bits: 0x3FF0_0000_0000_0000 };
            &&& call_ensures(M::log_magnitude, (&m, component(mags, best - 1).raised(floor)), y0)
            &&& call_ensures(M::log_magnitude, (&m, component(mags, best).raised(floor)), y1)
            &&& call_ensures(M::log_magnitude, (&m, component(mags, best + 1).raised(floor)), y2)
            &&& call_ensures(M::curvature, (&m, y0, y1, y2), curve)
            &&& !delta.less(minus_one)
            &&& !one.less(delta)
            &&& if curve.absolute().less(Real64 { bits: 0x3D71_9799_812D_EA11 }) {
                delta.bits == 0
            } else {
                exists|raw: Real64| #[trigger]
                    call_ensures(M::vertex, (&m, y0, y2, curve), raw) && (delta == raw || raw.less(
                        minus_one,
                    ) && delta == minus_one || one.less(raw) && delta == one)
            }
            &&& call_ensures(M::bin_frequency, (&m, best as i64, delta, bin_hz), f)
        }
}

proof fn lemma_strongest_bin(mags: Seq<Real64>, lo: int, hi: int)
    requires
        lo <= hi,
        forall|j: int| lo <= j <= hi ==> !(#[trigger] component(mags, j)).nan(),
    ensures
        lo <= strongest_bin(mags, lo, hi) <= hi,
        forall|k: int|
            lo <= k <= hi ==> !component(mags, strongest_bin(mags, lo, hi)).less(
                #[trigger] component(mags, k),
            ),
    decreases hi - lo,
{
    assert(!component(mags, hi).nan());
    if lo < hi {
        lemma_strongest_bin(mags, lo, hi - 1);
        let best = strongest_bin(mags, lo, hi - 1);
        assert(!component(mags, best).nan());
        assert(magnitude_at(mags, best) == component(mags, best));
        assert(magnitude_at(mags, hi) == component(mags, hi));
        assert forall|k: int| lo <= k <= hi implies !component(
            mags,
            strongest_bin(mags, lo, hi),
        ).less(#[trigger] component(mags, k)) by {
            assert(!component(mags, k).nan());
        }
    }
}

proof fn lemma_strongest(mags: Seq<Real64>, n: nat)
    requires
        n <= mags.len(),
        forall|i: int| 0 <= i < mags.len() ==> !(#[trigger] mags[i]).nan(),
    ensures
        !strongest(mags, n).nan(),
        forall|i: int| 0 <= i < n ==> !strongest(mags, n).less(#[trigger] mags[i]),
        strongest(mags, n) == (Real64 { bits: 0 }) || mags.contains(strongest(mags, n)),
    decreases n,
{
    if n > 0 {
        lemma_strongest(mags, (n - 1) as nat);
        assert(!mags[n - 1].nan());
        assert forall|i: int| 0 <= i < n implies !strongest(mags, n).less(#[trigger] mags[i]) by {
            assert(!mags[i].nan());
        }
    }
}

proof fn lemma_interpolated<M: ToneMath>(
    m: M,
    mags: Seq<Real64>,
    best: int,
    bin_hz: Real64,
    f: Real64,
)
    requires
        is_peak_frequency(m, mags, best, bin_hz, f),
    ensures
        is_interpolated(m, mags, best, bin_hz, f),
{
    let (y0, y1, y2, delta) = choose|y0: Real64, y1: Real64, y2: Real64, delta: Real64|
        #![trigger is_vertex(m, y0, y1, y2, delta)]
        log_gives(m, magnitude_at(mags, best - 1), y0) && log_gives(
            m,
            magnitude_at(mags, best),
            y1,
        ) && log_gives(m, magnitude_at(mags, best + 1), y2) && is_vertex(m, y0, y1, y2, delta)
            && call_ensures(M::bin_frequency, (&m, best as i64, delta, bin_hz), f);
    let curve = choose|curve: Real64| #[trigger]
        call_ensures(M::curvature, (&m, y0, y1, y2), curve) && if curve.absolute().less(
            Real64 { bits: super::tone::FLAT_BITS },
        ) {
            delta.bits == 0
        } else {
            exists|raw: Real64| #[trigger]
                call_ensures(M::vertex, (&m, y0, y2, curve), raw) && delta == raw.clamped(
                    Real64 { bits: super::tone::MINUS_ONE_BITS },
                    Real64 { bits: super::fir::ONE_BITS },
                )
        };
    assert(call_ensures(M::curvature, (&m, y0, y1, y2), curve));
    assert(call_ensures(M::bin_frequency, (&m, best as i64, delta, bin_hz), f));
    assert(magnitude_at(mags, best - 1) == component(mags, best - 1));
    assert(magnitude_at(mags, best) == component(mags, best));
    assert(magnitude_at(mags, best + 1) == component(mags, best + 1));
}

/// `r` is what a spectrum tells of the band whose edges fall on bins `lo` and `hi`:
/// the frequency of the strongest component in the band, or nothing where that
/// component carries no energy or lies more than 40 dB below the strongest
/// component anywhere.
pub open spec fn tells_the_strongest<M: ToneMath>(
    m: M,
    mags: Seq<Real64>,
    bin_hz: Real64,
    lo: int,
    hi: int,
    r: Option<Real64>,
) -> bool {
    exists|best: int| #[trigger]
        is_strongest_between(mags, lo, hi, best) && {
            let peak = component(mags, best);
            let zero = Real64 { bits: 0 };
            if !zero.less(peak) {
                r is None
            } else {
                exists|top: Real64, db: Real64|
                    #![trigger is_overall_strongest(mags, top), call_ensures(M::decibel_ratio, (&m, peak, top.raised(Real64 { bits: 0x0010_0000_0000_0000 })), db)]
                    is_overall_strongest(mags, top) && call_ensures(
                        M::decibel_ratio,
                        (&m, peak, top.raised(Real64 { bits: 0x0010_0000_0000_0000 })),
                        db,
                    ) && match r {
                        None => db.less(Real64 { bits: 0xC044_0000_0000_0000 }),
                        Some(f) => !db.less(Real64 { bits: 0xC044_0000_0000_0000 })
                            && is_interpolated(m, mags, best, bin_hz, f),
                    }
            }
        }
}

/// A reading is of the strongest component of the band that was asked for: every
/// bin from the one at `min_hz` to the one at `max_hz`, up to half the sample rate
/// on either side of the centre, is searched, and none of them is stronger than
/// the one whose frequency is given. Asked of every band that has a bin within
/// half the sample rate, and of every spectrum of numbers.
pub proof fn readings_are_of_the_strongest_component<M: ToneMath>(
    m: M,
    mags: Seq<Real64>,
    sample_rate: Real64,
    min_hz: Real64,
    max_hz: Real64,
    r: Option<Real64>,
)
    requires
        4 <= mags.len(),
        forall|i: int| 0 <= i < mags.len() ==> !(#[trigger] mags[i]).nan(),
        is_reading(m, mags, sample_rate, min_hz, max_hz, r),
        mags.len() % 2 == 0,
    ensures
        exists|bin_hz: Real64, lo: Real64, hi: Real64|
            #![trigger call_ensures(M::bin_number, (&m, min_hz, bin_hz), lo), call_ensures(M::bin_number, (&m, max_hz, bin_hz), hi)]
            {
                let half = (mags.len() / 2) as int;
                &&& call_ensures(M::bin_width, (&m, sample_rate, mags.len() as usize), bin_hz)
                &&& call_ensures(M::bin_number, (&m, min_hz, bin_hz), lo)
                &&& call_ensures(M::bin_number, (&m, max_hz, bin_hz), hi)
                &&& lo.round_signed() <= hi.round_signed() && lo.round_signed() <= half
                    && -half <= hi.round_signed() ==> tells_the_strongest(
                    m,
                    mags,
                    bin_hz,
                    lo.round_signed(),
                    hi.round_signed(),
                    r,
                )
                &&& lo.round_signed() > hi.round_signed() && lo.round_signed() > -half
                    && hi.round_signed() < half ==> r is None
            },
{
    let half = (mags.len() / 2) as int;
    let (bin_hz, lo, hi) = choose|bin_hz: Real64, lo: Real64, hi: Real64|
        #![trigger call_ensures(M::bin_number, (&m, min_hz, bin_hz), lo), call_ensures(M::bin_number, (&m, max_hz, bin_hz), hi)]
        {
            let half = (mags.len() / 2) as int;
            &&& call_ensures(M::bin_width, (&m, sample_rate, mags.len() as usize), bin_hz)
            &&& call_ensures(M::bin_number, (&m, min_hz, bin_hz), lo)
            &&& call_ensures(M::bin_number, (&m, max_hz, bin_hz), hi)
            &&& is_band_reading(
                m,
                mags,
                bin_hz,
                confined(lo.round_signed(), half),
                confined(hi.round_signed(), half),
                r,
            )
        };
    let (a, b) = (lo.round_signed(), hi.round_signed());
    if a <= b && a <= half && -half <= b {
        let (c, d) = (confined(a, half), confined(b, half));
        assert forall|k: int| c <= k <= d implies !(#[trigger] component(mags, k)).nan() by {}
        lemma_strongest_bin(mags, c, d);
        lemma_strongest(mags, mags.len());
        let best = strongest_bin(mags, c, d);
        let peak = component(mags, best);
        let top = strongest(mags, mags.len());
        assert(magnitude_at(mags, best) == peak);
        assert(is_strongest_between(mags, a, b, best));
        assert(is_overall_strongest(mags, top));
        if (Real64 { bits: 0 }).less(peak) {
            let db = choose|db: Real64| #[trigger]
                ratio_gives(m, peak, strongest(mags, mags.len()), db) && if db.less(
                    Real64 { bits: super::tone::BAND_SIGNIFICANCE_BITS },
                ) {
                    r is None
                } else {
                    r matches Some(f) && is_peak_frequency(m, mags, best, bin_hz, f)
                };
            assert(call_ensures(
                M::decibel_ratio,
                (&m, peak, top.raised(Real64 { bits: 0x0010_0000_0000_0000 })),
                db,
            ));
            if let Some(f) = r {
                lemma_interpolated(m, mags, best, bin_hz, f);
            }
        }
        assert(tells_the_strongest(m, mags, bin_hz, a, b, r));
    }
}

/// `mean` is what is taken off a component before it is windowed: nothing where
/// the centre is kept, and the sum of the component from zero on, over its length,
/// otherwise.
pub open spec fn is_taken_off<M: ToneMath>(
    m: M,
    signal: Seq<Iq>,
    of_q: bool,
    keep_dc: bool,
    mean: Real64,
) -> bool {
    if keep_dc {
        mean.bits == 0
    } else {
        exists|sums: Seq<Real64>|
            #![trigger sums.last()]
            {
                &&& sums.len() == signal.len() + 1
                &&& sums[0].bits == 0
                &&& forall|k: int|
                    0 <= k < signal.len() ==> accumulate_gives(
                        m,
                        sums[k],
                        if of_q {
                            (#[trigger] signal[k]).q
                        } else {
                            signal[k].i
                        },
                        sums[k + 1],
                    )
                &&& call_ensures(M::average, (&m, sums.last(), signal.len() as usize), mean)
            }
    }
}

/// `c` is sample `k` of the signal, less the means and weighted with the window at
/// its place.
pub open spec fn is_under_the_window<M: ToneMath>(
    m: M,
    signal: Seq<Iq>,
    mean_i: Real64,
    mean_q: Real64,
    k: int,
    c: Complex,
) -> bool {
    exists|w: Real64| #[trigger]
        call_ensures(M::hann, (&m, k as usize, signal.len() as usize), w) && call_ensures(
            M::windowed,
            (&m, signal[k].i, mean_i, w),
            c.re,
        ) && call_ensures(M::windowed, (&m, signal[k].q, mean_q, w), c.im)
}

/// The spectrum that is read is that of the signal less its mean, under a Hann
/// window as long as the signal, padded with zeros to the power of two that is at
/// least twice and less than four times as long.
pub proof fn spectra_are_of_the_windowed_signal<M: ToneMath + FftMath>(
    m: M,
    signal: Seq<Iq>,
    keep_dc: bool,
    mags: Seq<Real64>,
)
    requires
        is_spectrum(m, signal, keep_dc, mags),
        signal.len() <= usize::MAX,
    ensures
        is_power_of_two(mags.len()),
        2 * signal.len() <= mags.len() < 4 * signal.len(),
        exists|mean_i: Real64, mean_q: Real64, cs: Seq<Complex>, ys: Seq<Complex>|
            #![trigger is_fft(m, cs, ys), is_taken_off(m, signal, false, keep_dc, mean_i), is_taken_off(m, signal, true, keep_dc, mean_q)]
            {
                &&& is_taken_off(m, signal, false, keep_dc, mean_i)
                &&& is_taken_off(m, signal, true, keep_dc, mean_q)
                &&& cs.len() == mags.len()
                &&& ys.len() == mags.len()
                &&& forall|k: int|
                    0 <= k < signal.len() ==> is_under_the_window(
                        m,
                        signal,
                        mean_i,
                        mean_q,
                        k,
                        #[trigger] cs[k],
                    )
                &&& forall|k: int|
                    signal.len() <= k < cs.len() ==> (#[trigger] cs[k]).re.bits == 0
                        && cs[k].im.bits == 0
                &&& is_fft(m, cs, ys)
                &&& forall|k: int|
                    0 <= k < ys.len() ==> call_ensures(
                        M::spectral_magnitude,
                        (&m, ys[k].re, ys[k].im),
                        #[trigger] mags[k],
                    )
            },
{
    let (mean_i, mean_q, cs, ys) = choose|
        mean_i: Real64,
        mean_q: Real64,
        cs: Seq<Complex>,
        ys: Seq<Complex>,
    |
        #![trigger is_prepared(m, signal, mean_i, mean_q, cs), is_fft(m, cs, ys)]
        is_reference(m, in_phase(signal), keep_dc, mean_i) && is_reference(
            m,
            quadrature(signal),
            keep_dc,
            mean_q,
        ) && is_prepared(m, signal, mean_i, mean_q, cs) && is_fft(m, cs, ys) && are_magnitudes(
            m,
            ys,
            mags,
        );
    lemma_taken_off(m, signal, false, keep_dc, mean_i);
    lemma_taken_off(m, signal, true, keep_dc, mean_q);
    super::fft::lemma_fft_len(m, cs, ys);
    assert forall|k: int| 0 <= k < signal.len() implies is_under_the_window(
        m,
        signal,
        mean_i,
        mean_q,
        k,
        #[trigger] cs[k],
    ) by {
        assert(is_windowed_sample(
            m,
            signal[k],
            mean_i,
            mean_q,
            k as usize,
            signal.len() as usize,
            cs[k],
        ));
        let w = choose|w: Real64| #[trigger]
            hann_gives(m, k as usize, signal.len() as usize, w) && windowed_gives(
                m,
                signal[k].i,
                mean_i,
                w,
                cs[k].re,
            ) && windowed_gives(m, signal[k].q, mean_q, w, cs[k].im);
        assert(call_ensures(M::hann, (&m, k as usize, signal.len() as usize), w));
    }
    assert forall|k: int| 0 <= k < ys.len() implies call_ensures(
        M::spectral_magnitude,
        (&m, ys[k].re, ys[k].im),
        #[trigger] mags[k],
    ) by {
        assert(magnitude_gives(m, ys[k], mags[k]));
    }
}

proof fn lemma_taken_off<M: ToneMath>(
    m: M,
    signal: Seq<Iq>,
    of_q: bool,
    keep_dc: bool,
    mean: Real64,
)
    requires
        is_reference(
            m,
            if of_q {
                quadrature(signal)
            } else {
                in_phase(signal)
            },
            keep_dc,
            mean,
        ),
    ensures
        is_taken_off(m, signal, of_q, keep_dc, mean),
{
    let xs = if of_q {
        quadrature(signal)
    } else {
        in_phase(signal)
    };
    if !keep_dc {
        let sums = choose|sums: Seq<Real64>| #[trigger]
            running_sums(m, xs, sums) && call_ensures(
                M::average,
                (&m, sums.last(), xs.len() as usize),
                mean,
            );
        let last = sums.last();
        assert forall|k: int| 0 <= k < signal.len() implies accumulate_gives(
            m,
            sums[k],
            if of_q {
                (#[trigger] signal[k]).q
            } else {
                signal[k].i
            },
            sums[k + 1],
        ) by {
            assert(accumulate_gives(m, sums[k], xs[k], sums[k + 1]));
        }
        assert(call_ensures(M::average, (&m, last, signal.len() as usize), mean));
    }
}

/// An estimate is only refused for a signal under eight samples, a rate that is not
/// positive or a band that is empty; any other one is a reading of the spectrum.
pub proof fn estimates_are_readings<M: ToneMath + FftMath>(
    m: M,
    signal: Seq<Iq>,
    keep_dc: bool,
    sample_rate: Real64,
    min_hz: Real64,
    max_hz: Real64,
    r: Option<Real64>,
)
    requires
        is_estimate(m, signal, keep_dc, sample_rate, min_hz, max_hz, r),
    ensures
        signal.len() < 8 || sample_rate.at_most(Real64 { bits: 0 }) || max_hz.at_most(min_hz) ==> r is None,
        signal.len() >= 8 && !sample_rate.at_most(Real64 { bits: 0 }) && !max_hz.at_most(min_hz)
            ==> exists|mags: Seq<Real64>| #[trigger]
            is_spectrum(m, signal, keep_dc, mags) && is_reading(
                m,
                mags,
                sample_rate,
                min_hz,
                max_hz,
                r,
            ),
{
}

/// The envelope of a signal is its magnitude, sample by sample, as a real signal.
pub proof fn envelopes_are_magnitudes<M: LevelMath>(m: M, iq: Seq<Iq>, env: Seq<Iq>, k: int)
    requires
        is_envelope(m, iq, env),
        0 <= k < iq.len(),
    ensures
        env.len() == iq.len(),
        call_ensures(M::magnitude, (&m, iq[k]), env[k].i),
        env[k].q.bits == 0,
{
}

} // verus!

//! What calls of the public functions promise, of arguments and results.

use vstd::prelude::*;
use crate::capture::batch;
use crate::config::{ChannelConfig, ChannelMath, Config, ConfigError};
#[allow(unused_imports)]
use crate::config::{is_request, valid_means_positive_and_reachable};
use crate::dsp::fft::FftMath;
use crate::dsp::fir::{estimate_taps, kaiser_lowpass, FilterDesignMath};
#[allow(unused_imports)]
use crate::dsp::fir::{is_kaiser_lowpass, is_tap_count};
use crate::dsp::iq::{envelope, iq_to_sc16, mean_power, power_dbfs, sc16_to_iq, Iq, LevelMath};
#[allow(unused_imports)]
use crate::dsp::iq::{is_mean_power, power_sums, quantized};
use crate::dsp::plan::{plan_stages, PlanError, PlanMath, PlanRequest, StagePlan};
#[allow(unused_imports)]
use crate::dsp::plan::{is_planned, is_ratio, planned};
use crate::dsp::tone::{envelope_tone_hz, estimate_frequency, estimate_frequency_keeping_dc, ToneMath};
#[allow(unused_imports)]
use crate::dsp::tone::{is_estimate, is_reading, is_spectrum};
#[allow(unused_imports)]
use crate::dsp::tone_laws::estimates_are_readings;
use crate::ieee::{Real32, Real64};
use crate::service::replay::{choose_mode, pause_after, InputMode, PacingMath};
use crate::service::sink::{is_enabled, SinkConfig, Verdict, VerdictMath, VerificationSink};
#[allow(unused_imports)]
use crate::service::sink::is_verdict;
use crate::http::respond;
#[allow(unused_imports)]
use crate::http::{answer_to, path_of, wire_text};
use crate::metrics::Metrics;
#[allow(unused_imports)]
use crate::metrics::exposition;
#[allow(unused_imports)]
use crate::text::decimal;
use crate::vita49::forwarder::Vita49Forwarder;
use crate::service::channelizer::{ChannelizerService, GapRecord, ServiceConfig};
#[allow(unused_imports)]
use crate::service::channelizer::holes;
#[allow(unused_imports)]
use crate::dsp::decimator::settling_of;
#[allow(unused_imports)]
use crate::dsp::plan::factor_product;
use crate::vectors::{vita49_stream, AmTone, VectorMath};
#[allow(unused_imports)]
use crate::vectors::{are_stream_packets, is_am_sample};
use crate::vita49::packet::{build_packet, frame, parse, timestamp_fields, Packet, ParseError, TimestampMath};
#[allow(unused_imports)]
use crate::vita49::packet::{fraction_gives, frame_bytes, stamp, whole_seconds_gives};
#[allow(unused_imports)]
use crate::vita49::cursor::concatenation;
#[allow(unused_imports)]
use crate::vita49::wire_laws::{exactly_one_packet_parses, is_one_packet, parsed_fields_stand_in_the_bytes};

verus! {

/// A plan is made for the rates, edges, attenuation and budget that were given, in
/// that order.
pub proof fn plans_are_for_what_was_asked<M: PlanMath + FilterDesignMath>(
    m: &M,
    input_rate: Real64,
    output_rate: Real64,
    passband_hz: Real64,
    stopband_hz: Real64,
    stopband_db: Real64,
    max_taps: usize,
    r: Result<Vec<StagePlan>, PlanError>,
)
    requires
        call_ensures(
            plan_stages::<M>,
            (input_rate, output_rate, passband_hz, stopband_hz, stopband_db, max_taps, m),
            r,
        ),
    ensures
        exists|req: PlanRequest| #[trigger]
            is_planned(*m, req, planned(r)) && req.input_rate == input_rate && req.output_rate
                == output_rate && req.passband_hz == passband_hz && req.stopband_hz == stopband_hz
                && req.stopband_db == stopband_db && req.max_taps == max_taps,
        r matches Ok(stages) ==> planned(r) == Ok::<Seq<StagePlan>, PlanError>(stages@),
{
}

/// A request is refused for a reason that it gives: rates that are not positive, an
/// output faster than the input, edges out of order, an edge above the output's
/// Nyquist frequency, or a ratio that is not whole.
pub proof fn refusals_of_requests_have_their_reason<M: PlanMath>(
    m: M,
    req: PlanRequest,
    e: PlanError,
)
    requires
        is_ratio(m, req, Err(e)),
    ensures
        ({
            let zero = Real64 { bits: 0 };
            match e {
                PlanError::RatesNotPositive => !zero.less(req.input_rate) || !zero.less(req.output_rate),
                PlanError::OutputAboveInput => req.input_rate.less(req.output_rate),
                PlanError::BandOrder => !zero.less(req.passband_hz) || !req.passband_hz.less(
                    req.stopband_hz,
                ),
                PlanError::StopbandAboveNyquist { nyquist } => {
                    &&& call_ensures(M::nyquist, (&m, req.output_rate), nyquist)
                    &&& exists|limit: Real64| #[trigger]
                        call_ensures(M::nyquist_limit, (&m, req.output_rate), limit) && limit.less(
                            req.stopband_hz,
                        )
                },
                PlanError::FractionalRatio { ratio } => {
                    &&& call_ensures(M::ratio, (&m, req.input_rate, req.output_rate), ratio)
                    &&& exists|nearest: Real64, off: Real64|
                        #![trigger call_ensures(M::nearest, (&m, ratio), nearest), call_ensures(M::difference, (&m, ratio, nearest), off)]
                        {
                            &&& call_ensures(M::nearest, (&m, ratio), nearest)
                            &&& call_ensures(M::difference, (&m, ratio, nearest), off)
                            &&& nearest.less(Real64 { bits: 0x3FF0_0000_0000_0000 }) || (Real64 {
                                bits: 0x3E11_2E0B_E826_D695,
                            }).less(off) || off.less(Real64 { bits: 0xBE11_2E0B_E826_D695 })
                        }
                },
                PlanError::NoStage { .. } => false,
            }
        }),
{
    let zero = Real64 { bits: 0 };
    let total = Err::<usize, PlanError>(e);
    if zero.less(req.input_rate) && zero.less(req.output_rate) && !req.input_rate.less(
        req.output_rate,
    ) && zero.less(req.passband_hz) && req.passband_hz.less(req.stopband_hz) {
        let limit = choose|limit: Real64| #[trigger]
            call_ensures(M::nyquist_limit, (&m, req.output_rate), limit) && if limit.less(
                req.stopband_hz,
            ) {
                exists|nyquist: Real64| #[trigger]
                    call_ensures(M::nyquist, (&m, req.output_rate), nyquist) && total == Err::<
                        usize,
                        PlanError,
                    >(PlanError::StopbandAboveNyquist { nyquist })
            } else {
                crate::dsp::plan::is_whole_ratio(m, req, total)
            };
        if !limit.less(req.stopband_hz) {
            let (ratio, nearest, off) = choose|ratio: Real64, nearest: Real64, off: Real64|
                #![trigger call_ensures(M::nearest, (&m, ratio), nearest), crate::dsp::plan::difference_gives(m, ratio, nearest, off)]
                call_ensures(M::ratio, (&m, req.input_rate, req.output_rate), ratio) && call_ensures(
                    M::nearest,
                    (&m, ratio),
                    nearest,
                ) && crate::dsp::plan::difference_gives(m, ratio, nearest, off) && if nearest.less(
                    Real64 { bits: crate::dsp::fir::ONE_BITS },
                ) || (Real64 { bits: crate::dsp::plan::RATIO_TOLERANCE_BITS }).less(off.absolute()) {
                    total == Err::<usize, PlanError>(PlanError::FractionalRatio { ratio })
                } else {
                    total == Ok::<usize, PlanError>(nearest.cast_unsigned(usize::MAX as nat) as usize)
                };
            assert(call_ensures(M::nearest, (&m, ratio), nearest));
            assert(call_ensures(M::difference, (&m, ratio, nearest), off));
        }
    }
}

/// Estimates are readings of the signal that was given, in the band that was given,
/// with its mean taken off or kept as the function says; the modulation tone is
/// that of the signal's magnitude.
pub proof fn estimates_are_of_what_was_given<M: ToneMath + FftMath + LevelMath>(
    m: &M,
    signal: &[Iq],
    sample_rate: Real64,
    min_hz: Real64,
    max_hz: Real64,
    plain: Option<Real64>,
    kept: Option<Real64>,
    tone: Option<Real64>,
)
    requires
        call_ensures(estimate_frequency::<M>, (signal, sample_rate, min_hz, max_hz, m), plain),
        call_ensures(
            estimate_frequency_keeping_dc::<M>,
            (signal, sample_rate, min_hz, max_hz, m),
            kept,
        ),
        call_ensures(envelope_tone_hz::<M>, (signal, sample_rate, min_hz, max_hz, m), tone),
        signal@.len() >= 8,
        (Real64 { bits: 0 }).less(sample_rate),
        min_hz.less(max_hz),
    ensures
        exists|mags: Seq<Real64>| #[trigger]
            is_spectrum(*m, signal@, false, mags) && is_reading(
                *m,
                mags,
                sample_rate,
                min_hz,
                max_hz,
                plain,
            ),
        exists|mags: Seq<Real64>| #[trigger]
            is_spectrum(*m, signal@, true, mags) && is_reading(
                *m,
                mags,
                sample_rate,
                min_hz,
                max_hz,
                kept,
            ),
        exists|env: Seq<Iq>, mags: Seq<Real64>|
            #![trigger is_spectrum(*m, env, false, mags)]
            {
                &&& env.len() == signal@.len()
                &&& forall|k: int|
                    0 <= k < env.len() ==> call_ensures(
                        M::magnitude,
                        (m, signal@[k]),
                        (#[trigger] env[k]).i,
                    ) && env[k].q.bits == 0
                &&& is_spectrum(*m, env, false, mags)
                &&& is_reading(*m, mags, sample_rate, min_hz, max_hz, tone)
            },
{
    estimates_are_readings(*m, signal@, false, sample_rate, min_hz, max_hz, plain);
    estimates_are_readings(*m, signal@, true, sample_rate, min_hz, max_hz, kept);
    let env = choose|env: Seq<Iq>| #[trigger]
        crate::dsp::iq::is_envelope(*m, signal@, env) && is_estimate(
            *m,
            env,
            false,
            sample_rate,
            min_hz,
            max_hz,
            tone,
        );
    estimates_are_readings(*m, env, false, sample_rate, min_hz, max_hz, tone);
    let mags = choose|mags: Seq<Real64>| #[trigger]
        is_spectrum(*m, env, false, mags) && is_reading(
            *m,
            mags,
            sample_rate,
            min_hz,
            max_hz,
            tone,
        );
    assert forall|k: int| 0 <= k < env.len() implies call_ensures(
        M::magnitude,
        (m, signal@[k]),
        (#[trigger] env[k]).i,
    ) && env[k].q.bits == 0 by {
        assert(crate::dsp::iq::magnitude_gives(*m, signal@[k], env[k].i));
    }
}

/// Decoding pairs up components in order; encoding lays samples out in order, each
/// component the nearest on the 16-bit scale.
pub proof fn conversions_keep_order_and_length(
    interleaved: &[i16],
    decoded: Vec<Iq>,
    samples: &[Iq],
    encoded: Vec<i16>,
    k: int,
)
    requires
        call_ensures(sc16_to_iq, (interleaved,), decoded),
        call_ensures(iq_to_sc16, (samples,), encoded),
        0 <= k,
    ensures
        decoded@.len() == interleaved@.len() / 2,
        k < decoded@.len() ==> quantized(decoded@[k].i) == interleaved@[2 * k] && quantized(
            decoded@[k].q,
        ) == interleaved@[2 * k + 1],
        encoded@.len() == 2 * samples@.len(),
        k < samples@.len() ==> encoded@[2 * k] == quantized(samples@[k].i) && encoded@[2 * k + 1]
            == quantized(samples@[k].q),
{
    if k < decoded@.len() {
        let s = decoded@[k];
        crate::dsp::iq::conversion_round_trips(interleaved@[2 * k] as int, s.i);
        crate::dsp::iq::conversion_round_trips(interleaved@[2 * k + 1] as int, s.q);
    }
    if k < samples@.len() {
        crate::dsp::signal_laws::interleaving_keeps_the_order(samples@, k);
    }
}

/// The mean power of samples is the sum of their powers, from zero on, over their
/// number; of no samples there is none, and their level is negative infinity, as
/// it is where the mean is not positive.
pub proof fn levels_are_means_of_powers<M: LevelMath>(
    m: &M,
    iq: &[Iq],
    mean: Option<Real32>,
    level: Real32,
)
    requires
        call_ensures(mean_power::<M>, (iq, m), mean),
        call_ensures(power_dbfs::<M>, (iq, m), level),
    ensures
        mean is None <==> iq@.len() == 0,
        mean matches Some(p) ==> is_the_mean_power(*m, iq@, p),
        iq@.len() == 0 ==> level.bits == 0xFF80_0000,
        iq@.len() > 0 ==> exists|p: Real32| #[trigger]
            is_the_mean_power(*m, iq@, p) && if !p.nan() && !p.negative() && p.bits != 0 {
                call_ensures(M::decibels, (m, p), level)
            } else {
                level.bits == 0xFF80_0000
            },
{
    if let Some(p) = mean {
        lemma_mean_power(*m, iq@, p);
    }
    if iq@.len() > 0 {
        let p = choose|p: Real32| #[trigger]
            is_mean_power(*m, iq@, p) && if p.positive() {
                crate::dsp::iq::decibels_gives(*m, p, level)
            } else {
                level.bits == crate::dsp::iq::NEG_INFINITY32
            };
        lemma_mean_power(*m, iq@, p);
    }
}

/// `p` is the sum of the powers of `iq`, from zero on, over their number.
pub open spec fn is_the_mean_power<M: LevelMath>(m: M, iq: Seq<Iq>, p: Real32) -> bool {
    exists|sums: Seq<Real64>|
        #![trigger sums.last()]
        {
            &&& sums.len() == iq.len() + 1
            &&& sums[0].bits == 0
            &&& forall|k: int|
                0 <= k < iq.len() ==> call_ensures(
                    M::accumulate_power,
                    (&m, sums[k], #[trigger] iq[k]),
                    sums[k + 1],
                )
            &&& call_ensures(M::mean, (&m, sums.last(), iq.len() as usize), p)
        }
}

proof fn lemma_mean_power<M: LevelMath>(m: M, iq: Seq<Iq>, p: Real32)
    requires
        is_mean_power(m, iq, p),
    ensures
        is_the_mean_power(m, iq, p),
{
    let sums = choose|sums: Seq<Real64>| #[trigger]
        power_sums(m, iq, sums) && crate::dsp::iq::mean_gives(m, sums.last(), iq.len() as usize, p);
    assert forall|k: int| 0 <= k < iq.len() implies call_ensures(
        M::accumulate_power,
        (&m, sums[k], #[trigger] iq[k]),
        sums[k + 1],
    ) by {
        assert(crate::dsp::iq::accumulate_gives(m, sums[k], iq[k], sums[k + 1]));
    }
    let last = sums.last();
    assert(call_ensures(M::mean, (&m, last, iq.len() as usize), p));
}

/// A packet holds the components that were given, as far as they are pairs, and the
/// whole seconds and the fraction in samples of the time that was given, rounded to
/// the nearest sample; a fraction that makes a whole second, at a rate of one sample
/// a second or more, is carried.
pub proof fn packets_hold_what_was_given<M: TimestampMath>(
    m: &M,
    samples: &[i16],
    timestamp_secs: Real64,
    sample_rate: Real64,
    buf: Vec<u8>,
)
    requires
        call_ensures(build_packet::<M>, (samples, timestamp_secs, sample_rate, m), buf),
    ensures
        exists|whole: Real64, frac: Real64, ts_int: u32, ts_frac: u64|
            #![trigger call_ensures(M::fraction_in_samples, (m, timestamp_secs, whole, sample_rate), frac), frame_bytes(samples@, ts_int, ts_frac)]
            {
                &&& call_ensures(M::whole_seconds, (m, timestamp_secs), whole)
                &&& call_ensures(
                    M::fraction_in_samples,
                    (m, timestamp_secs, whole, sample_rate),
                    frac,
                )
                &&& is_carried(whole, frac, sample_rate, ts_int, ts_frac)
                &&& buf@ == frame_bytes(samples@, ts_int, ts_frac)
            },
{
    let (whole, frac) = choose|whole: Real64, frac: Real64|
        #![trigger fraction_gives(*m, timestamp_secs, whole, sample_rate, frac)]
        whole_seconds_gives(*m, timestamp_secs, whole) && fraction_gives(
            *m,
            timestamp_secs,
            whole,
            sample_rate,
            frac,
        ) && buf@ == frame_bytes(
            samples@,
            stamp(whole, frac, sample_rate).0,
            stamp(whole, frac, sample_rate).1,
        );
    let fields = stamp(whole, frac, sample_rate);
    lemma_carried(whole, frac, sample_rate);
    assert(call_ensures(
        M::fraction_in_samples,
        (m, timestamp_secs, whole, sample_rate),
        frac,
    ));
    assert(buf@ == frame_bytes(samples@, fields.0, fields.1));
}

/// The timestamp fields are the whole seconds and the fraction, rounded to the
/// nearest sample and carried where that makes a second.
pub open spec fn is_carried(whole: Real64, frac: Real64, rate: Real64, ts_int: u32, ts_frac: u64) -> bool {
    let secs = whole.cast_unsigned(u32::MAX as nat) as int;
    let count = frac.round_unsigned(u64::MAX as nat) as int;
    let per = rate.cast_unsigned(u64::MAX as nat) as int;
    if per >= 1 && count >= per {
        ts_int == (secs + 1) % 0x1_0000_0000 && ts_frac == count - per
    } else {
        ts_int == secs && ts_frac == count
    }
}

proof fn lemma_carried(whole: Real64, frac: Real64, rate: Real64)
    ensures
        is_carried(whole, frac, rate, stamp(whole, frac, rate).0, stamp(whole, frac, rate).1),
{
}

/// Parsing reads the bytes that were given, and framing writes the fields that were
/// given.
pub proof fn parsing_reads_what_was_given<'a>(
    buf: &'a [u8],
    r: Result<Packet<'a>, ParseError>,
    samples: &[i16],
    ts_int: u32,
    ts_frac: u64,
    framed: Vec<u8>,
)
    requires
        call_ensures(parse, (buf,), r),
        call_ensures(frame, (samples, ts_int, ts_frac), framed),
    ensures
        r is Ok <==> is_one_packet(buf@),
        r matches Ok(p) ==> p.payload@ == buf@.subrange(20, buf@.len() as int),
        framed@ == frame_bytes(samples@, ts_int, ts_frac),
{
    exactly_one_packet_parses(buf@);
    if is_one_packet(buf@) {
        parsed_fields_stand_in_the_bytes(buf@, r);
    }
}

/// Timestamp fields are the whole seconds and the rounded fraction, carried where
/// that makes a second.
pub proof fn timestamps_are_carried(whole: Real64, frac: Real64, rate: Real64, r: (u32, u64))
    requires
        call_ensures(timestamp_fields, (whole, frac, rate), r),
    ensures
        is_carried(whole, frac, rate, r.0, r.1),
{
    lemma_carried(whole, frac, rate);
}

/// The sample counter of a packet is its seconds in samples plus its fraction.
pub proof fn counters_add_seconds_and_samples<M: TimestampMath>(
    m: &M,
    p: Packet,
    rate: Real64,
    r: Option<u64>,
)
    requires
        call_ensures(Packet::sample_counter::<M>, (&p, rate, m), r),
    ensures
        exists|scaled: Real64| #[trigger]
            call_ensures(M::seconds_in_samples, (m, p.ts_int, rate), scaled) && {
                let sum = scaled.cast_unsigned(u64::MAX as nat) + p.ts_frac;
                &&& sum <= u64::MAX ==> r == Some(sum as u64)
                &&& sum > u64::MAX ==> r is None
            },
{
    let scaled = choose|scaled: Real64| #[trigger]
        crate::vita49::packet::seconds_gives(*m, p.ts_int, rate, scaled) && match r {
            Some(c) => c == crate::vita49::packet::counter_value(scaled, p.ts_frac),
            None => crate::vita49::packet::counter_value(scaled, p.ts_frac) > u64::MAX,
        };
    assert(call_ensures(M::seconds_in_samples, (m, p.ts_int, rate), scaled));
}

/// A stream holds the samples that were given, so many to a packet, from the time
/// that was given on; a signal is as long as its duration makes it, to the nearest
/// sample, and each sample is its own.
pub proof fn test_signals_are_what_was_asked<M: VectorMath + TimestampMath>(
    m: &M,
    iq: &[Iq],
    rate: Real64,
    per: usize,
    start_secs: Real64,
    r: (Vec<u8>, usize),
    spec: &AmTone,
    signal: Vec<Iq>,
    peak: Real64,
)
    requires
        call_ensures(vita49_stream::<M>, (iq, rate, per, start_secs, m), r),
        call_ensures(AmTone::generate::<M>, (spec, m), signal),
        call_ensures(AmTone::peak_amplitude::<M>, (spec, m), peak),
        per > 0,
    ensures
        exists|ps: Seq<Seq<u8>>| #[trigger]
            are_stream_packets(*m, iq@, rate, per as nat, start_secs, ps) && r.0@ == concatenation(ps)
                && r.1 == ps.len(),
        (r.1 as int - 1) * per < iq@.len() <= r.1 * per,
        exists|raw: Real64| #[trigger]
            call_ensures(M::sample_count, (m, spec.seconds, spec.sample_rate), raw) && signal@.len()
                == raw.round_unsigned(usize::MAX as nat),
        forall|k: int|
            0 <= k < signal@.len() ==> is_am_sample(
                *m,
                *spec,
                spec.used_depth(),
                k as usize,
                #[trigger] signal@[k],
            ),
        call_ensures(M::peak, (m, spec.amplitude, spec.used_depth()), peak),
{
    let n = iq@.len() as int;
    let q = per as int;
    let t = r.1 as int;
    assert(t == (n + q - 1) / q);
    vstd::arithmetic::div_mod::lemma_fundamental_div_mod(n + q - 1, q);
    vstd::arithmetic::div_mod::lemma_mod_bound(n + q - 1, q);
    vstd::arithmetic::mul::lemma_mul_is_commutative(q, t);
    assert((t - 1) * q == t * q - q) by (nonlinear_arith);
    let raw = choose|raw: Real64| #[trigger]
        call_ensures(M::sample_count, (m, spec.seconds, spec.sample_rate), raw)
            && signal@.len() as usize == raw.round_unsigned(usize::MAX as nat);
    assert(call_ensures(M::sample_count, (m, spec.seconds, spec.sample_rate), raw));
}

/// A configuration is accepted exactly when it is valid, and refused for the first
/// thing that is not.
pub proof fn validation_is_of_the_whole_configuration(c: &Config, r: Result<(), ConfigError>)
    requires
        call_ensures(Config::validate, (c,), r),
    ensures
        ({
            let zero = Real64 { bits: 0 };
            &&& r is Ok <==> zero.less(c.rf.center_freq) && zero.less(c.rf.sample_rate) && zero.less(
                c.rf.bandwidth,
            ) && c.forwarding.vita49_dest_port != 0
        }),
{
    valid_means_positive_and_reachable(*c);
}

/// A service is configured for the channel that was given: its plan is for the
/// channel, and its rates, offset, edge and attenuation are the channel's.
pub proof fn services_are_configured_for_the_channel<
    M: ChannelMath + PlanMath + FilterDesignMath,
>(
    m: &M,
    channel: &ChannelConfig,
    input_rate: Real64,
    r: Result<(Vec<StagePlan>, ServiceConfig), PlanError>,
)
    requires
        call_ensures(ServiceConfig::from_channel::<M>, (channel, input_rate, m), r),
    ensures
        exists|req: PlanRequest| #[trigger]
            is_request(*m, *channel, input_rate, req) && match r {
                Ok((plan, cfg)) => {
                    &&& is_planned(*m, req, Ok(plan@))
                    &&& cfg.input_rate == input_rate
                    &&& cfg.output_rate == channel.output_rate_hz
                    &&& cfg.offset_hz == channel.offset_hz
                    &&& channel.passband_hz matches Some(p) ==> cfg.passband_hz == p
                    &&& channel.passband_hz is None ==> call_ensures(
                        M::default_passband,
                        (m, channel.output_rate_hz),
                        cfg.passband_hz,
                    )
                    &&& cfg.stopband_db == channel.stopband_db
                },
                Err(e) => is_planned(*m, req, Err(e)),
            },
{
}

/// A replay waits for what is left of the time that a packet stands for, and not at
/// all where none is; the mode that was asked for wins over the configured one.
pub proof fn replays_wait_for_what_is_left<M: PacingMath>(
    m: &M,
    samples: usize,
    rate: Real64,
    elapsed: Real64,
    r: Option<Real64>,
    asked: Option<InputMode>,
    configured: &str,
    mode: Option<InputMode>,
)
    requires
        call_ensures(pause_after::<M>, (samples, rate, elapsed, m), r),
        call_ensures(choose_mode, (asked, configured), mode),
    ensures
        exists|stands_for: Real64| #[trigger]
            call_ensures(M::duration, (m, samples, rate), stands_for) && (elapsed.less(stands_for)
                <==> r is Some) && (r matches Some(wait) ==> call_ensures(
                M::remaining,
                (m, stands_for, elapsed),
                wait,
            )),
        asked is Some ==> mode == asked,
        asked is None && configured@ == "udp"@ ==> mode == Some(InputMode::Udp),
        asked is None && configured@ != "udp"@ && configured@ == "replay"@ ==> mode == Some(
            InputMode::Replay,
        ),
        asked is None && configured@ != "udp"@ && configured@ != "replay"@ ==> mode is None,
{
}

/// A read of the receiver gives what was received and no more, with its time, or
/// zero where none was told; nothing where nothing was received. A limit in seconds
/// is in force where it is positive.
pub proof fn reads_give_what_was_received(
    buf: &[(i16, i16)],
    received: usize,
    time: Option<Real64>,
    r: Option<(Real64, Vec<i16>)>,
    k: int,
    seconds: Real64,
    enabled: bool,
)
    requires
        call_ensures(batch, (buf, received, time), r),
        call_ensures(is_enabled, (seconds,), enabled),
    ensures
        r is None <==> received == 0,
        r matches Some((ts, samples)) ==> {
            let n = if received < buf@.len() {
                received as int
            } else {
                buf@.len() as int
            };
            &&& samples@.len() == 2 * n
            &&& time matches Some(t) ==> ts == t
            &&& time is None ==> ts.bits == 0
            &&& 0 <= k < n ==> samples@[2 * k] == buf@[k].0 && samples@[2 * k + 1] == buf@[k].1
        },
        enabled <==> (Real64 { bits: 0 }).less(seconds),
{
    assert((2 * k) / 2 == k);
    assert((2 * k + 1) / 2 == k);
}

/// Filters are designed, and their lengths counted, for the parameters that were
/// given, in that order.
pub proof fn designs_are_for_what_was_given<M: FilterDesignMath>(
    m: &M,
    taps: usize,
    cutoff_hz: Real64,
    sample_rate: Real64,
    stopband_db: Real64,
    h: Vec<Real32>,
    transition_hz: Real64,
    count: usize,
)
    requires
        call_ensures(kaiser_lowpass::<M>, (taps, cutoff_hz, sample_rate, stopband_db, m), h),
        call_ensures(estimate_taps::<M>, (stopband_db, transition_hz, sample_rate, m), count),
    ensures
        h@.len() == taps,
        is_kaiser_lowpass(*m, taps, cutoff_hz, sample_rate, stopband_db, h@),
        is_tap_count(*m, stopband_db, transition_hz, sample_rate, count),
{
}

/// A verdict is on what the consumer has received.
pub proof fn verdicts_are_on_what_was_received<M: VerdictMath + ToneMath + FftMath + LevelMath>(
    m: &M,
    sink: &VerificationSink,
    v: Verdict,
)
    requires
        call_ensures(VerificationSink::verdict::<M>, (sink, m), v),
    ensures
        is_verdict(*m, sink.state(), v),
        v.ok ==> v.packets > 0 && v.malformed == 0 && v.seq_gaps == 0,
        v.ok && sink.state().cfg.expect_tone is Some ==> (v.tone_error_hz matches Some(e) && e.at_most(
            sink.state().cfg.tone_tolerance,
        ) && e.negation().at_most(sink.state().cfg.tone_tolerance)),
{
}

/// The envelope of samples is as long as they are.
pub proof fn envelopes_are_as_long_as_the_signal<M: LevelMath>(m: &M, iq: &[Iq], out: Vec<Iq>)
    requires
        call_ensures(envelope::<M>, (iq, m), out),
    ensures
        out@.len() == iq@.len(),
        forall|k: int|
            0 <= k < iq@.len() ==> call_ensures(M::magnitude, (m, iq@[k]), (#[trigger] out@[k]).i)
                && out@[k].q.bits == 0,
{
    assert forall|k: int| 0 <= k < iq@.len() implies call_ensures(
        M::magnitude,
        (m, iq@[k]),
        (#[trigger] out@[k]).i,
    ) && out@[k].q.bits == 0 by {
        assert(crate::dsp::iq::magnitude_gives(*m, iq@[k], out@[k].i));
    }
}

/// What a service says of itself: the samples it has emitted, where its timeline
/// stands, its faults and its gaps.
pub proof fn services_say_where_they_stand<S: crate::service::output::OutputSink>(
    svc: &ChannelizerService<S>,
    emitted: u64,
    at: u64,
    malformed: u64,
    gaps: &[GapRecord],
    settling: usize,
)
    requires
        call_ensures(ChannelizerService::<S>::samples_out, (svc,), emitted),
        call_ensures(ChannelizerService::<S>::output_position, (svc,), at),
        call_ensures(ChannelizerService::<S>::malformed, (svc,), malformed),
        call_ensures(ChannelizerService::<S>::discontinuities, (svc,), gaps),
        call_ensures(ChannelizerService::<S>::settling_samples, (svc,), settling),
    ensures
        emitted == svc.state().emitted,
        at == svc.state().samples_out,
        malformed == svc.state().malformed,
        gaps@ == svc.state().discontinuities,
        settling == settling_of(svc.state().plan),
        svc.state().balanced() ==> at == emitted + holes(gaps@, factor_product(svc.state().plan)),
{
}

/// What a page shows: the exposition of the metrics under the prefix, and of a
/// request the answer to its path.
pub proof fn pages_show_the_metrics(
    metrics: &Metrics,
    prefix: &str,
    text: String,
    request: &str,
    answer: String,
)
    requires
        call_ensures(Metrics::render, (metrics, prefix), text),
        call_ensures(respond, (request, prefix, metrics), answer),
    ensures
        text@ == exposition(metrics.state(), prefix@),
        answer@ == wire_text(answer_to(path_of(request@), prefix@, metrics.state())),
{
}

/// A new consumer has received nothing and expects what it was told to; what it
/// counts is what it has received.
pub proof fn consumers_start_with_nothing(
    cfg: SinkConfig,
    now: u64,
    fresh: VerificationSink,
    sink: &VerificationSink,
    counts: (u64, u64, u64),
)
    requires
        call_ensures(VerificationSink::new, (cfg, now), fresh),
        call_ensures(VerificationSink::counts, (sink,), counts),
    ensures
        fresh.state().cfg == cfg,
        fresh.state().packets == 0 && fresh.state().samples == 0 && fresh.state().malformed == 0,
        fresh.state().last_packet_at is None,
        fresh.state().measure.len() == 0,
        fresh.state().last_report == now,
        fresh.state().gaps.next_expected is None,
        counts.0 == sink.state().packets && counts.1 == sink.state().samples && counts.2
            == sink.state().malformed,
{
}

/// A new forwarder has counted nothing, and is for the host and port that were
/// given; its drops are those for want of an address and those of full buffers.
pub proof fn forwarders_start_with_nothing<A: Copy>(
    host: &str,
    port: u16,
    resolved: Option<A>,
    now: u64,
    fresh: Vita49Forwarder<A>,
    f: &Vita49Forwarder<A>,
    dropped: u64,
)
    requires
        call_ensures(Vita49Forwarder::<A>::new, (host, port, resolved, now), fresh),
        call_ensures(Vita49Forwarder::<A>::dropped_packets, (f,), dropped),
    ensures
        fresh.state().dest == host@ + ":"@ + decimal(port as nat),
        fresh.state().resolved == resolved,
        fresh.state().last_resolve_attempt == Some(now),
        fresh.state().packet_count == 0,
        fresh.state().unresolved_dropped == 0 && fresh.state().send_dropped == 0,
        dropped == f.state().unresolved_dropped + f.state().send_dropped,
{
}

} // verus!

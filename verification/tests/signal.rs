//! The signal chain on the machine's own arithmetic.

use sigproc::config::{ChannelConfig, ChannelMath, ConfigError};
use sigproc::dsp::decimator::is_buildable;
use sigproc::dsp::fft::{Complex, FftMath};
use sigproc::dsp::filter::FilterMath;
use sigproc::dsp::fir::FilterDesignMath;
use sigproc::dsp::fma::MultiplyAddMath;
use sigproc::dsp::iq::LevelMath;
use sigproc::dsp::nco::OscillatorMath;
use sigproc::dsp::plan::{PlanMath, PlanRequest, StageFailure};
use sigproc::dsp::tone::ToneMath;
use sigproc::dsp::{
    envelope, envelope_tone_hz, estimate_frequency, estimate_frequency_keeping_dc, estimate_taps, fft_in_place,
    fmaf, fused_multiply_add_8lane, fused_multiply_add_kernel, fused_multiply_add_kernel_with_offset,
    iq_to_sc16, kaiser_beta, kaiser_lowpass, mean_power, plan_stages, power_dbfs, sc16_to_iq, Channelizer,
    FirDecimator, Iq, Nco, PlanError, StagePlan,
};
use sigproc::ieee::{Real32, Real64};
use sigproc::message::NumberText;
use sigproc::metrics::{GaugeText, Metrics};
use sigproc::service::replay::{pause_after, replay, replay_step, PacingMath, ReplayStep};
use sigproc::service::sink::{IdleAction, SinkConfig, VerdictMath, VerificationSink};
use sigproc::service::{
    is_deployable, ChainMath, ChannelizerService, CollectingSink, CounterOverflow, OutputSink, ServiceConfig,
    ServiceMath, OUTPUT_PACKET_SAMPLES,
};
use sigproc::vectors::{AmTone, VectorMath};
use sigproc::vita49::packet::{HEADER_BYTES, VITA49_IF_DATA_PACKET, VITA49_TSF_SAMPLE_COUNT, VITA49_TSI_OTHER};
use sigproc::vita49::{frame, PacketCursor, ParseError, TimestampMath};
use std::f64::consts::{PI, TAU};

/// The machine's arithmetic.
#[derive(Clone, Copy, Debug, Default)]
struct Ieee;

/// A double as the library holds it.
fn r64(v: f64) -> Real64 {
    Real64 { bits: v.to_bits() }
}

/// A double that the library holds.
fn d64(v: Real64) -> f64 {
    f64::from_bits(v.bits)
}

/// A single as the library holds it.
fn r32(v: f32) -> Real32 {
    Real32 { bits: v.to_bits() }
}

/// A single that the library holds.
fn d32(v: Real32) -> f32 {
    f32::from_bits(v.bits)
}

impl TimestampMath for Ieee {
    fn whole_seconds(&self, timestamp_secs: Real64) -> Real64 {
        r64(d64(timestamp_secs).floor())
    }

    fn fraction_in_samples(&self, timestamp_secs: Real64, whole: Real64, sample_rate: Real64) -> Real64 {
        r64((d64(timestamp_secs) - d64(whole)) * d64(sample_rate))
    }

    fn seconds_in_samples(&self, seconds: u32, sample_rate: Real64) -> Real64 {
        r64(seconds as f64 * d64(sample_rate))
    }
}

impl FilterDesignMath for Ieee {
    fn tap_estimate(&self, stopband_db: Real64, transition_hz: Real64, sample_rate: Real64) -> Real64 {
        let dw = 2.0 * PI * d64(transition_hz) / d64(sample_rate);
        r64(((d64(stopband_db) - 8.0) / (2.285 * dw)).ceil())
    }

    fn steep_beta(&self, stopband_db: Real64) -> Real64 {
        r64(0.1102 * (d64(stopband_db) - 8.7))
    }

    fn moderate_beta(&self, stopband_db: Real64) -> Real64 {
        let a = d64(stopband_db) - 21.0;
        r64(0.5842 * a.powf(0.4) + 0.07886 * a)
    }

    fn bessel_term(&self, term: Real64, x: Real64, k: u32) -> Real64 {
        let t = d64(x) / (2.0 * k as f64);
        r64(d64(term) * (t * t))
    }

    fn sum(&self, a: Real64, b: Real64) -> Real64 {
        r64(d64(a) + d64(b))
    }

    fn negligible(&self, sum: Real64) -> Real64 {
        r64(1e-18 * d64(sum))
    }

    fn cutoff_fraction(&self, cutoff_hz: Real64, sample_rate: Real64) -> Real64 {
        r64(d64(cutoff_hz) / d64(sample_rate))
    }

    fn centre_offset(&self, n: usize, taps: usize) -> Real64 {
        r64(n as f64 - (taps - 1) as f64 / 2.0)
    }

    fn centre_sinc(&self, fc: Real64) -> Real64 {
        r64(2.0 * d64(fc))
    }

    fn sinc(&self, fc: Real64, x: Real64) -> Real64 {
        r64((2.0 * PI * d64(fc) * d64(x)).sin() / (PI * d64(x)))
    }

    fn window_taper(&self, x: Real64, taps: usize) -> Real64 {
        let r = 2.0 * d64(x) / (taps - 1) as f64;
        r64(1.0 - r * r)
    }

    fn window_argument(&self, beta: Real64, taper: Real64) -> Real64 {
        r64(d64(beta) * d64(taper).sqrt())
    }

    fn weighted(&self, sinc: Real64, window: Real64, window_peak: Real64) -> Real64 {
        r64(d64(sinc) * (d64(window) / d64(window_peak)))
    }

    fn reciprocal(&self, gain: Real64) -> Real64 {
        r64(1.0 / d64(gain))
    }

    fn scaled(&self, tap: Real64, scale: Real64) -> Real32 {
        r32((d64(tap) * d64(scale)) as f32)
    }
}

impl PlanMath for Ieee {
    fn nyquist(&self, rate: Real64) -> Real64 {
        r64(d64(rate) / 2.0)
    }

    fn nyquist_limit(&self, rate: Real64) -> Real64 {
        r64(d64(rate) / 2.0 + 1e-9)
    }

    fn ratio(&self, input: Real64, output: Real64) -> Real64 {
        r64(d64(input) / d64(output))
    }

    fn nearest(&self, ratio: Real64) -> Real64 {
        r64(d64(ratio).round())
    }

    fn stage_rate(&self, rate: Real64, factor: usize) -> Real64 {
        r64(d64(rate) / factor as f64)
    }

    fn difference(&self, a: Real64, b: Real64) -> Real64 {
        r64(d64(a) - d64(b))
    }

    fn midpoint(&self, a: Real64, b: Real64) -> Real64 {
        r64((d64(a) + d64(b)) / 2.0)
    }
}

impl ChannelMath for Ieee {
    fn default_passband(&self, output_rate: Real64) -> Real64 {
        r64(0.4 * d64(output_rate))
    }
}

impl OscillatorMath for Ieee {
    fn phase_step(&self, offset_hz: Real64, sample_rate: Real64) -> Real64 {
        r64((TAU * d64(offset_hz) / d64(sample_rate)).rem_euclid(TAU))
    }

    fn phasor(&self, phase: Real64) -> (Real32, Real32) {
        let (sin, cos) = d64(phase).sin_cos();
        (r32(cos as f32), r32(-(sin as f32)))
    }

    fn advance(&self, phase: Real64, step: Real64) -> Real64 {
        r64(d64(phase) + d64(step))
    }

    fn unwind(&self, phase: Real64) -> Real64 {
        r64(d64(phase) - TAU)
    }

    fn rotate(&self, s: Iq, c: Real32, ms: Real32) -> Iq {
        let (i, q, c, ms) = (d32(s.i), d32(s.q), d32(c), d32(ms));
        Iq { i: r32(i * c - q * ms), q: r32(i * ms + q * c) }
    }
}

impl FilterMath for Ieee {
    fn multiply_accumulate(&self, acc: Real32, tap: Real32, x: Real32) -> Real32 {
        r32(d32(acc) + d32(tap) * d32(x))
    }
}

impl MultiplyAddMath for Ieee {
    fn multiply_add(&self, a: Real32, b: Real32, c: Real32) -> Real32 {
        r32(d32(a) * d32(b) + d32(c))
    }
}

fn sample_power(s: Iq) -> f32 {
    let (i, q) = (d32(s.i), d32(s.q));
    i * i + q * q
}

impl LevelMath for Ieee {
    fn power(&self, s: Iq) -> Real32 {
        r32(sample_power(s))
    }

    fn magnitude(&self, s: Iq) -> Real32 {
        r32(sample_power(s).sqrt())
    }

    fn accumulate_power(&self, sum: Real64, s: Iq) -> Real64 {
        r64(d64(sum) + sample_power(s) as f64)
    }

    fn mean(&self, sum: Real64, n: usize) -> Real32 {
        r32((d64(sum) / n as f64) as f32)
    }

    fn decibels(&self, p: Real32) -> Real32 {
        r32(10.0 * d32(p).log10())
    }
}

impl FftMath for Ieee {
    fn rotation(&self, len: usize) -> Complex {
        let angle = -2.0 * PI / len as f64;
        Complex { re: r64(angle.cos()), im: r64(angle.sin()) }
    }

    fn complex_product(&self, a: Complex, b: Complex) -> Complex {
        let (ar, ai, br, bi) = (d64(a.re), d64(a.im), d64(b.re), d64(b.im));
        Complex { re: r64(ar * br - ai * bi), im: r64(ar * bi + ai * br) }
    }

    fn complex_sum(&self, a: Complex, b: Complex) -> Complex {
        Complex { re: r64(d64(a.re) + d64(b.re)), im: r64(d64(a.im) + d64(b.im)) }
    }

    fn complex_difference(&self, a: Complex, b: Complex) -> Complex {
        Complex { re: r64(d64(a.re) - d64(b.re)), im: r64(d64(a.im) - d64(b.im)) }
    }
}

impl ToneMath for Ieee {
    fn accumulate(&self, sum: Real64, x: Real32) -> Real64 {
        r64(d64(sum) + d32(x) as f64)
    }

    fn average(&self, sum: Real64, n: usize) -> Real64 {
        r64(d64(sum) / n as f64)
    }

    fn hann(&self, k: usize, n: usize) -> Real64 {
        let denom = (n - 1) as f64;
        r64(0.5 - 0.5 * (2.0 * PI * k as f64 / denom).cos())
    }

    fn windowed(&self, x: Real32, mean: Real64, w: Real64) -> Real64 {
        r64((d32(x) as f64 - d64(mean)) * d64(w))
    }

    fn spectral_magnitude(&self, re: Real64, im: Real64) -> Real64 {
        let (re, im) = (d64(re), d64(im));
        r64((re * re + im * im).sqrt())
    }

    fn bin_width(&self, sample_rate: Real64, len: usize) -> Real64 {
        r64(d64(sample_rate) / len as f64)
    }

    fn bin_number(&self, f: Real64, bin_hz: Real64) -> Real64 {
        r64(d64(f) / d64(bin_hz))
    }

    fn decibel_ratio(&self, a: Real64, b: Real64) -> Real64 {
        r64(20.0 * (d64(a) / d64(b)).log10())
    }

    fn log_magnitude(&self, a: Real64) -> Real64 {
        r64(d64(a).ln())
    }

    fn curvature(&self, y0: Real64, y1: Real64, y2: Real64) -> Real64 {
        r64(d64(y0) - 2.0 * d64(y1) + d64(y2))
    }

    fn vertex(&self, y0: Real64, y2: Real64, curvature: Real64) -> Real64 {
        r64(0.5 * (d64(y0) - d64(y2)) / d64(curvature))
    }

    fn bin_frequency(&self, bin: i64, delta: Real64, bin_hz: Real64) -> Real64 {
        r64((bin as f64 + d64(delta)) * d64(bin_hz))
    }
}

impl VectorMath for Ieee {
    fn sample_count(&self, seconds: Real64, sample_rate: Real64) -> Real64 {
        r64(d64(seconds) * d64(sample_rate))
    }

    fn peak(&self, amplitude: Real64, depth: Real64) -> Real64 {
        r64(d64(amplitude) * (1.0 + d64(depth)))
    }

    fn sample_time(&self, k: usize, sample_rate: Real64) -> Real64 {
        r64(k as f64 / d64(sample_rate))
    }

    fn angle(&self, frequency_hz: Real64, t: Real64) -> Real64 {
        r64(TAU * d64(frequency_hz) * d64(t))
    }

    fn modulated(&self, amplitude: Real64, depth: Real64, tone_angle: Real64) -> Real64 {
        r64(d64(amplitude) * (1.0 + d64(depth) * d64(tone_angle).cos()))
    }

    fn in_phase(&self, envelope: Real64, carrier_angle: Real64) -> Real32 {
        r32((d64(envelope) * d64(carrier_angle).cos()) as f32)
    }

    fn quadrature(&self, envelope: Real64, carrier_angle: Real64) -> Real32 {
        r32((d64(envelope) * d64(carrier_angle).sin()) as f32)
    }

    fn packet_time(&self, start_secs: Real64, first_sample: usize, sample_rate: Real64) -> Real64 {
        r64(d64(start_secs) + first_sample as f64 / d64(sample_rate))
    }
}

impl ServiceMath for Ieee {
    fn output_time(&self, first: u64, rate: Real64) -> Real64 {
        r64(first as f64 / d64(rate))
    }

    fn narrow(&self, v: Real64) -> Real32 {
        r32(d64(v) as f32)
    }
}

impl GaugeText for Ieee {
    fn gauge_text(&self, v: Real32) -> String {
        format!("{}", d32(v))
    }
}

impl ChainMath for Ieee {}

impl NumberText for Ieee {
    fn number(&self, v: Real64) -> String {
        format!("{}", d64(v))
    }

    fn rounded(&self, v: Real64) -> String {
        format!("{:.0}", d64(v))
    }
}

impl PacingMath for Ieee {
    fn duration(&self, samples: usize, rate: Real64) -> Real64 {
        r64(samples as f64 / d64(rate))
    }

    fn remaining(&self, a: Real64, b: Real64) -> Real64 {
        r64(d64(a) - d64(b))
    }
}

impl VerdictMath for Ieee {
    fn highest_tone(&self, rate: Real64) -> Real64 {
        r64(0.1 * d64(rate))
    }

    fn tone_error(&self, got: Real64, want: Real64) -> Real64 {
        r64(d64(got) - d64(want))
    }
}

const M: Ieee = Ieee;

fn iq(i: f32, q: f32) -> Iq {
    Iq { i: r32(i), q: r32(q) }
}

fn build_packet(samples: &[i16], ts: f64, rate: f64) -> Vec<u8> {
    sigproc::vita49::build_packet(samples, r64(ts), r64(rate), &M)
}

fn parse(buf: &[u8]) -> Result<sigproc::vita49::Packet<'_>, ParseError> {
    sigproc::vita49::parse(buf)
}

// Packets

const SAMPLE_RATE: f64 = 2_000_000.0;
const FULL_SAMPLES: usize = 2048;

fn make_samples(n: usize) -> Vec<i16> {
    (0..n * 2)
        .map(|i| (i as i16).wrapping_mul(37).wrapping_sub(1000))
        .collect()
}

fn header(pkt: &[u8]) -> u32 {
    u32::from_be_bytes(pkt[0..4].try_into().unwrap())
}

fn ts_int(pkt: &[u8]) -> u32 {
    u32::from_be_bytes(pkt[8..12].try_into().unwrap())
}

fn ts_frac(pkt: &[u8]) -> u64 {
    u64::from_be_bytes(pkt[12..20].try_into().unwrap())
}

#[test]
fn vita49_every_payload_size_frames_without_panicking() {
    for n in 0..=FULL_SAMPLES {
        let pkt = build_packet(&make_samples(n), 0.0, SAMPLE_RATE);
        assert_eq!(pkt.len(), HEADER_BYTES + n * 4, "n={n}");
        assert_eq!(pkt.len() % 4, 0, "n={n}: VITA49 datagrams are word aligned");
    }
}

#[test]
fn vita49_full_packet_is_8212_bytes_with_spec_correct_size_field() {
    let samples = make_samples(FULL_SAMPLES);
    let pkt = build_packet(&samples, 12.0, SAMPLE_RATE);

    assert_eq!(pkt.len(), 8212, "5 header words + 2048 payload words");
    assert_eq!(header(&pkt), 0x10D00804);
    assert_eq!((header(&pkt) & 0xFFFF) as usize + 1, pkt.len() / 4);
    assert_eq!(u32::from_be_bytes(pkt[4..8].try_into().unwrap()), 0, "stream id");

    for (i, &s) in samples.iter().enumerate() {
        let off = HEADER_BYTES + i * 2;
        assert_eq!(i16::from_be_bytes(pkt[off..off + 2].try_into().unwrap()), s);
    }
}

#[test]
fn vita49_header_bit_fields_match_the_vita49_contract() {
    let h = header(&build_packet(&make_samples(FULL_SAMPLES), 0.0, SAMPLE_RATE));
    assert_eq!(h >> 28, VITA49_IF_DATA_PACKET, "packet type");
    assert_eq!((h >> 26) & 0x3, 0, "class id absent");
    assert_eq!((h >> 24) & 0x3, 0, "no trailer");
    assert_eq!((h >> 22) & 0x3, VITA49_TSI_OTHER, "free-running time");
    assert_eq!((h >> 20) & 0x3, VITA49_TSF_SAMPLE_COUNT, "sample-count fraction");
    assert_eq!((h >> 16) & 0xF, 0, "packet count is 0 today (known, recorded)");
}

#[test]
fn vita49_fractional_timestamp_is_sample_counts_not_subseconds() {
    let pkt = build_packet(&make_samples(4), 12.5, SAMPLE_RATE);
    assert_eq!(ts_int(&pkt), 12);
    assert_eq!(ts_frac(&pkt), 1_000_000, "0.5 s at 2 MS/s");
    assert!(ts_frac(&pkt) < SAMPLE_RATE as u64);

    let carried = build_packet(&make_samples(4), 13.0, SAMPLE_RATE);
    assert_eq!(ts_int(&carried), 13);
    assert_eq!(ts_frac(&carried), 0, "fraction resets on carry");
}

#[test]
fn consecutive_packets_unwrap_to_an_exact_2048_sample_step() {
    let counter = |p: &[u8]| ts_int(p) as u64 * SAMPLE_RATE as u64 + ts_frac(p);
    let mut previous = counter(&build_packet(&make_samples(FULL_SAMPLES), 1000.0, SAMPLE_RATE));
    for step in 1..200 {
        let ts = 1000.0 + step as f64 * FULL_SAMPLES as f64 / SAMPLE_RATE;
        let now = counter(&build_packet(&make_samples(FULL_SAMPLES), ts, SAMPLE_RATE));
        assert_eq!(now - previous, FULL_SAMPLES as u64, "step {step} (ts {ts})");
        previous = now;
    }
}

#[test]
fn consecutive_packets_unwrap_to_a_2048_sample_step() {
    let a = build_packet(&make_samples(FULL_SAMPLES), 1000.0, SAMPLE_RATE);
    let b = build_packet(&make_samples(FULL_SAMPLES), 1000.001024, SAMPLE_RATE);
    let counter = |p: &[u8]| ts_int(p) as u64 * SAMPLE_RATE as u64 + ts_frac(p);
    let step = counter(&b) as i64 - counter(&a) as i64;
    assert!((step - 2048).abs() <= 1, "step={step}");
}

#[test]
fn vita49_short_packets_are_framed_from_their_own_size() {
    let pkt = build_packet(&make_samples(3), 0.0, SAMPLE_RATE);
    assert_eq!(pkt.len(), HEADER_BYTES + 3 * 4);
    assert_eq!(header(&pkt) & 0xFFFF, 7, "(5 + 3) - 1");

    let mut odd = make_samples(2);
    odd.push(1234);
    let pkt = build_packet(&odd, 0.0, SAMPLE_RATE);
    assert_eq!(pkt.len(), HEADER_BYTES + 2 * 4);
    assert_eq!(pkt.len() % 4, 0);
}

#[test]
fn parse_round_trips_build_packet_exactly() {
    for n in [0usize, 1, 7, 64, FULL_SAMPLES] {
        let samples = make_samples(n);
        let pkt = build_packet(&samples, 1234.5, SAMPLE_RATE);
        let parsed = parse(&pkt).expect("parses");
        assert_eq!(parsed.packet_type, VITA49_IF_DATA_PACKET);
        assert_eq!(parsed.samples(), n);
        assert_eq!(parsed.ts_int, 1234);
        assert_eq!(parsed.ts_frac, 1_000_000, "0.5 s in sample counts");
        assert_eq!(parsed.tsf, VITA49_TSF_SAMPLE_COUNT);
        assert_eq!(parsed.iq_i16(), samples, "payload round-trips intact");
    }
}

#[test]
fn parse_rejects_a_short_or_overlong_buffer() {
    let full = build_packet(&make_samples(16), 0.0, SAMPLE_RATE);
    assert_eq!(parse(&full[..8]), Err(ParseError::TooShort { got: 8 }));

    let mut overlong = full.clone();
    overlong.push(0);
    assert_eq!(
        parse(&overlong),
        Err(ParseError::LengthMismatch { declared: full.len(), actual: full.len() + 1 })
    );

    let mut truncated = full;
    truncated.truncate(truncated.len() - 4);
    assert!(matches!(parse(&truncated), Err(ParseError::LengthMismatch { .. })));
}

#[test]
fn parse_rejects_packet_types_this_chain_does_not_understand() {
    let mut pkt = build_packet(&make_samples(4), 0.0, SAMPLE_RATE);
    let mut header = u32::from_be_bytes(pkt[0..4].try_into().unwrap());
    header = (header & 0x0FFF_FFFF) | (0x4 << 28);
    pkt[0..4].copy_from_slice(&header.to_be_bytes());
    assert_eq!(parse(&pkt), Err(ParseError::UnsupportedPacketType(0x4)));
}

#[test]
fn parse_refuses_trailerized_packets_rather_than_reading_trailers_as_samples() {
    let mut pkt = build_packet(&make_samples(4), 0.0, SAMPLE_RATE);
    let header = u32::from_be_bytes(pkt[0..4].try_into().unwrap());
    let header = header | (0x1 << 24);
    pkt[0..4].copy_from_slice(&header.to_be_bytes());
    assert_eq!(parse(&pkt), Err(ParseError::Trailerized));
}

#[test]
fn a_packet_file_is_walked_packet_by_packet() {
    let packets: Vec<Vec<u8>> = (0..5)
        .map(|i| {
            let ts = 100.0 + i as f64 * 32.0 / SAMPLE_RATE;
            build_packet(&make_samples(32), ts, SAMPLE_RATE)
        })
        .collect();
    let mut file = Vec::new();
    for p in &packets {
        file.extend_from_slice(p);
    }

    let mut cursor = PacketCursor::new(&file);
    let mut counters = Vec::new();
    while let Some(next) = cursor.next_packet() {
        let parsed = next.expect("parses");
        counters.push(parsed.sample_counter(r64(SAMPLE_RATE), &M).expect("fits"));
    }
    assert!(cursor.is_exhausted());
    assert_eq!(counters.len(), 5);

    for (i, pair) in counters.windows(2).enumerate() {
        assert_eq!(
            pair[1] - pair[0],
            32,
            "packet {i} to {}: sample counter must advance by the payload length",
            i + 1
        );
    }
    assert_eq!(counters[0], 100 * SAMPLE_RATE as u64, "first packet starts at 100 s");
}

#[test]
fn a_truncated_tail_in_a_packet_file_is_reported_not_silently_dropped() {
    let mut file = build_packet(&make_samples(16), 0.0, SAMPLE_RATE);
    file.extend_from_slice(&build_packet(&make_samples(16), 0.0, SAMPLE_RATE)[..12]);

    let mut cursor = PacketCursor::new(&file);
    assert!(cursor.next_packet().expect("first").is_ok());
    let err = cursor
        .next_packet()
        .expect("second")
        .expect_err("truncated tail must be reported");
    assert!(matches!(err, ParseError::TooShort { .. }), "{err:?}");
}

#[test]
fn a_sample_counter_that_does_not_fit_is_none() {
    let pkt = frame(&[], 1, u64::MAX);
    let p = parse(&pkt).expect("parses");
    assert_eq!(p.sample_counter(r64(0.0), &M), Some(u64::MAX));
    assert_eq!(p.sample_counter(r64(1.0), &M), None);
}

// Samples and levels

#[test]
fn sc16_round_trips_within_one_lsb() {
    let original = vec![0i16, 32767, -32768, 16384, -16384, 1, -1, 100];
    let iq = sc16_to_iq(&original);
    assert_eq!(iq.len(), 4, "4 I/Q pairs");
    let back = iq_to_sc16(&iq);
    for (a, b) in original.iter().zip(back.iter()) {
        assert!((*a as i32 - *b as i32).abs() <= 1, "{a} -> {b}");
    }
}

#[test]
fn every_component_normalizes_exactly_and_comes_back() {
    let all: Vec<i16> = (i16::MIN..=i16::MAX).collect();
    let iq = sc16_to_iq(&all);
    for (k, s) in iq.iter().enumerate() {
        assert_eq!(d32(s.i), all[2 * k] as f32 / 32768.0);
        assert_eq!(d32(s.q), all[2 * k + 1] as f32 / 32768.0);
    }
    assert_eq!(iq_to_sc16(&iq), all);
}

#[test]
fn quantization_agrees_with_the_machine() {
    let values = [
        0.0f32, -0.0, 1e-45, 1.5e-5, 1.6e-5, 4.5e-5, 0.1, -0.1, 0.99998, 1.0, -1.0, 1.5, 1e30,
        f32::INFINITY, f32::NEG_INFINITY, f32::NAN, 0.5 / 32768.0, -0.5 / 32768.0, 1.5 / 32768.0,
        2.5 / 32768.0, 0.49 / 32768.0,
    ];
    for v in values {
        let want = (v * 32768.0).round().clamp(-32768.0, 32767.0) as i16;
        assert_eq!(iq_to_sc16(&[iq(v, v)]), vec![want, want], "{v}");
    }
}

#[test]
fn a_trailing_unpaired_sample_is_dropped() {
    let iq = sc16_to_iq(&[100, 200, 300]);
    assert_eq!(iq.len(), 1);
    assert_eq!(iq_to_sc16(&iq).len(), 2);
}

#[test]
fn quantization_saturates_instead_of_wrapping() {
    let out = iq_to_sc16(&[iq(2.0, -2.0)]);
    assert_eq!(out, vec![32767, -32768]);
}

#[test]
fn full_scale_complex_tone_reads_zero_dbfs_and_a_sine_reads_minus_three() {
    let n = 1024;
    let complex: Vec<Iq> = (0..n)
        .map(|k| {
            let ang = 2.0 * PI * k as f64 / n as f64;
            iq(ang.cos() as f32, ang.sin() as f32)
        })
        .collect();
    let level = d32(power_dbfs(&complex, &M));
    assert!((level - 0.0).abs() < 0.01, "{level}");

    let sine: Vec<Iq> = (0..n)
        .map(|k| {
            let ang = 2.0 * PI * k as f64 / n as f64;
            iq(ang.cos() as f32, 0.0)
        })
        .collect();
    let level = d32(power_dbfs(&sine, &M));
    assert!((level - (-3.0103)).abs() < 0.01, "{level}");
}

#[test]
fn silence_and_empty_are_negative_infinity_not_nan() {
    assert!(d32(power_dbfs(&[Iq::zero(); 16], &M)).is_infinite());
    assert!(d32(power_dbfs(&[], &M)).is_infinite());
    assert_eq!(mean_power(&[], &M), None);
}

#[test]
fn power_and_magnitude_of_one_sample() {
    let s = Iq::new(r32(3.0), r32(-4.0));
    assert_eq!(d32(s.power(&M)), 25.0);
    assert_eq!(d32(s.magnitude(&M)), 5.0);
    assert_eq!(mean_power(&[s, Iq::zero()], &M), Some(r32(12.5)));
}

#[test]
fn envelope_of_an_am_signal_tracks_the_modulation() {
    let rate = 50_000.0;
    let iq: Vec<Iq> = (0..5000)
        .map(|k| {
            let t = k as f64 / rate;
            let amp = 1.0 + 0.5 * (2.0 * PI * 1000.0 * t).cos();
            iq(amp as f32, 0.0)
        })
        .collect();
    let env = envelope(&iq, &M);
    assert_eq!(env.len(), iq.len());
    let peak = env.iter().map(|s| d32(s.i)).fold(f32::MIN, f32::max);
    let trough = env.iter().map(|s| d32(s.i)).fold(f32::MAX, f32::min);
    assert!((peak - 1.5).abs() < 1e-3, "peak {peak}");
    assert!((trough - 0.5).abs() < 1e-3, "trough {trough}");
}

// Multiply kernels

fn reals(v: &[f32]) -> Vec<Real32> {
    v.iter().map(|x| r32(*x)).collect()
}

#[test]
fn test_fma_kernel_basic() {
    let a = reals(&[1.0; 8]);
    let b = reals(&[2.0; 8]);
    let mut c = reals(&[0.0; 8]);

    fused_multiply_add_8lane(&a, &b, &mut c, &M).expect("not empty");

    assert!(c.iter().all(|&x| d32(x) == 2.0));
}

#[test]
fn test_fma_kernel_with_offset() {
    let a = reals(&[1.0, 2.0, 3.0, 4.0]);
    let b = reals(&[5.0, 6.0, 7.0, 8.0]);
    let mut c = reals(&[0.0; 4]);

    fused_multiply_add_kernel_with_offset(&a, &b, &mut c, &M).expect("ok");

    assert!((d32(c[0]) - 5.0).abs() < f32::EPSILON);
    assert!((d32(c[1]) - 12.0).abs() < f32::EPSILON);
}

#[test]
fn test_fma_kernel_edge_cases() {
    let a = reals(&[f32::NAN, f32::INFINITY, -1.0, 0.5, 2.0, -2.0, 4.0, -4.0]);
    let b = reals(&[2.0; 8]);
    let mut c = reals(&[0.0; 8]);

    fused_multiply_add_8lane(&a, &b, &mut c, &M).expect("not empty");

    assert!(d32(c[0]).is_nan());
    assert!(d32(c[1]).is_infinite());
}

#[test]
fn kernels_write_what_all_three_arrays_have() {
    let a = reals(&[3.0; 20]);
    let b = reals(&[2.0; 12]);
    let mut c = reals(&[7.0; 15]);
    fused_multiply_add_8lane(&a, &b, &mut c, &M).expect("not empty");
    assert_eq!(c, reals(&[6.0, 6.0, 6.0, 6.0, 6.0, 6.0, 6.0, 6.0, 7.0, 7.0, 7.0, 7.0, 7.0, 7.0, 7.0]));
    fused_multiply_add_kernel(&a, &b, &mut c, &M).expect("ok");
    assert_eq!(c[..12], reals(&[6.0; 12])[..]);
    assert_eq!(c[12..], reals(&[7.0; 3])[..]);
    let e = fused_multiply_add_8lane(&[], &b, &mut c, &M).expect_err("empty");
    assert_eq!(e.message(), "Input arrays must not be empty");
    assert!(fused_multiply_add_kernel(&[], &b, &mut c, &M).is_ok());
    assert_eq!(d32(fmaf(r32(2.0), r32(3.0), r32(4.0), &M)), 10.0);
}

// Oscillator

fn complex_tone(freq: f64, sample_rate: f64, n: usize) -> Vec<Iq> {
    (0..n)
        .map(|k| {
            let ang = TAU * freq * k as f64 / sample_rate;
            iq(ang.cos() as f32, ang.sin() as f32)
        })
        .collect()
}

#[test]
fn a_tone_at_the_offset_mixes_to_dc() {
    let sig = complex_tone(200_000.0, 2_000_000.0, 4096);
    let mut nco = Nco::new(r64(200_000.0), r64(2_000_000.0), &M);
    let mixed: Vec<Iq> = sig.iter().map(|s| nco.mix(*s, &M)).collect();

    let mean_i = mixed.iter().map(|s| d32(s.i) as f64).sum::<f64>() / mixed.len() as f64;
    let mean_q = mixed.iter().map(|s| d32(s.q) as f64).sum::<f64>() / mixed.len() as f64;
    assert!((mean_i - 1.0).abs() < 1e-3, "mean I = {mean_i}");
    assert!(mean_q.abs() < 1e-3, "mean Q = {mean_q}");
    for s in &mixed {
        assert!((d32(s.i) - 1.0).abs() < 1e-2 && d32(s.q).abs() < 1e-2, "{s:?}");
    }
}

#[test]
fn a_negative_offset_is_shifted_to_dc_too() {
    let sig = complex_tone(-150_000.0, 2_000_000.0, 4096);
    let mut nco = Nco::new(r64(-150_000.0), r64(2_000_000.0), &M);
    let mixed: Vec<Iq> = sig.iter().map(|s| nco.mix(*s, &M)).collect();
    let mean_i = mixed.iter().map(|s| d32(s.i) as f64).sum::<f64>() / mixed.len() as f64;
    assert!((mean_i - 1.0).abs() < 1e-3, "mean I = {mean_i}");
}

#[test]
fn phase_continuity_holds_across_block_boundaries() {
    let sig = complex_tone(137_000.0, 2_000_000.0, 3000);

    let mut one_shot = Nco::new(r64(137_000.0), r64(2_000_000.0), &M);
    let want: Vec<Iq> = sig.iter().map(|s| one_shot.mix(*s, &M)).collect();

    let mut chunked = Nco::new(r64(137_000.0), r64(2_000_000.0), &M);
    let mut got = Vec::new();
    for block in [&sig[..1024], &sig[1024..1025], &sig[1025..]] {
        for s in block {
            got.push(chunked.mix(*s, &M));
        }
    }

    assert_eq!(got.len(), want.len());
    for (a, b) in got.iter().zip(want.iter()) {
        assert!(
            (d32(a.i) - d32(b.i)).abs() < 1e-6 && (d32(a.q) - d32(b.q)).abs() < 1e-6,
            "blocked mixing diverged: {a:?} vs {b:?}"
        );
    }
}

#[test]
fn phase_stays_bounded_over_a_long_run() {
    let mut nco = Nco::new(r64(1_999_999.0), r64(2_000_000.0), &M);
    for _ in 0..1_000_000 {
        nco.next_phasor(&M);
    }
    let phase = d64(nco.phase());
    assert!((0.0..TAU).contains(&phase), "phase escaped [0, TAU): {phase}");
}

#[test]
fn zero_offset_is_a_passthrough() {
    let mut nco = Nco::new(r64(0.0), r64(2_000_000.0), &M);
    let out = nco.mix(iq(0.25, -0.5), &M);
    assert!((d32(out.i) - 0.25).abs() < 1e-9 && (d32(out.q) + 0.5).abs() < 1e-9);
}

#[test]
fn zero_sample_rate_does_not_produce_nan() {
    let mut nco = Nco::new(r64(1000.0), r64(0.0), &M);
    let out = nco.mix(iq(1.0, 0.0), &M);
    assert!(d32(out.i).is_finite() && d32(out.q).is_finite(), "{out:?}");
}

// Filters

fn response_db(taps: &[Real32], freq_hz: f64, sample_rate: f64, floor: f64) -> f64 {
    let w = 2.0 * PI * freq_hz / sample_rate;
    let (mut re, mut im) = (0.0f64, 0.0f64);
    for (k, t) in taps.iter().enumerate() {
        re += d32(*t) as f64 * (w * k as f64).cos();
        im -= d32(*t) as f64 * (w * k as f64).sin();
    }
    let mag = (re * re + im * im).sqrt();
    20.0 * mag.max(floor).log10()
}

fn taps_for(db: f64, transition: f64, rate: f64) -> usize {
    estimate_taps(r64(db), r64(transition), r64(rate), &M)
}

fn lowpass(taps: usize, cutoff: f64, rate: f64, db: f64) -> Vec<Real32> {
    kaiser_lowpass(taps, r64(cutoff), r64(rate), r64(db), &M)
}

#[test]
fn taps_are_odd_and_grow_as_the_transition_narrows() {
    let wide = taps_for(80.0, 100_000.0, 2_000_000.0);
    let narrow = taps_for(80.0, 5_000.0, 2_000_000.0);
    assert!(wide > 3 && narrow > 3);
    assert!(wide % 2 == 1 && narrow % 2 == 1);
    assert!(
        narrow > wide * 5,
        "narrow transition must cost far more taps: {narrow} vs {wide}"
    );
    assert_eq!(taps_for(80.0, 0.0, 2_000_000.0), usize::MAX);
}

#[test]
fn tap_estimates_are_exact_on_given_values() {
    // (80 - 8) / (2.285 * 2 * PI * 5000 / 200000) rounds up to 201.
    assert_eq!(taps_for(80.0, 5_000.0, 200_000.0), 203);
    assert_eq!(taps_for(8.0, 5_000.0, 200_000.0), 3);
    assert_eq!(taps_for(0.0, 5_000.0, 200_000.0), usize::MAX, "a negative estimate");
    assert_eq!(taps_for(80.0, 5_000.0, -1.0), usize::MAX);
    assert_eq!(taps_for(80.0, 5e-320, 1e10), usize::MAX, "an estimate that is not finite");
}

#[test]
fn window_shapes_follow_the_attenuation() {
    assert_eq!(d64(kaiser_beta(r64(80.0), &M)), 0.1102 * (80.0 - 8.7));
    let a = 50.0f64 - 21.0;
    assert_eq!(d64(kaiser_beta(r64(50.0), &M)), 0.5842 * a.powf(0.4) + 0.07886 * a);
    assert_eq!(d64(kaiser_beta(r64(21.0), &M)), 0.0);
    assert_eq!(kaiser_beta(r64(20.9), &M), r64(0.0));
}

#[test]
fn design_has_unity_dc_gain_and_a_real_passband() {
    let rate = 250_000.0;
    let taps = lowpass(251, 20_000.0, rate, 80.0);
    assert_eq!(taps.len(), 251);
    assert!(response_db(&taps, 0.0, rate, 1e-12).abs() < 0.01, "DC gain");
    assert!(response_db(&taps, 5_000.0, rate, 1e-12) > -0.5, "passband");
    assert!(response_db(&taps, 15_000.0, rate, 1e-12) > -1.0, "passband edge");
}

#[test]
fn designs_are_symmetric_about_their_middle() {
    let taps = lowpass(51, 20_000.0, 250_000.0, 80.0);
    for k in 0..taps.len() {
        let (tap, mirrored) = (d32(taps[k]), d32(taps[taps.len() - 1 - k]));
        assert!((tap - mirrored).abs() < 1e-7, "tap {k}: {tap} vs {mirrored}");
    }
}

#[test]
fn design_meets_its_stopband_spec() {
    let rate = 250_000.0;
    let taps = lowpass(251, 20_000.0, rate, 80.0);
    for f in [30_000.0, 50_000.0, 75_000.0, 100_000.0, 125_000.0] {
        let db = response_db(&taps, f, rate, 1e-12);
        assert!(db < -60.0, "{f} Hz only {db} dB");
    }
}

#[test]
fn taps_pair_with_the_newest_sample_first() {
    let mut d = FirDecimator::new(reals(&[1.0, 2.0, 3.0]), 1);
    assert_eq!(d.process(r32(1.0), &M), Some(r32(1.0)));
    assert_eq!(d.process(r32(1.0), &M), Some(r32(1.0 * 1.0 + 2.0 * 1.0)));
    assert_eq!(d.process(r32(1.0), &M), Some(r32(1.0 + 2.0 + 3.0)));
    assert_eq!(d.process(r32(0.0), &M), Some(r32(0.0 + 2.0 * 1.0 + 3.0 * 1.0)));
}

#[test]
fn emits_exactly_one_output_per_factor_inputs() {
    let mut d = FirDecimator::new(reals(&[1.0, 1.0, 1.0]), 5);
    let mut outs = 0;
    for k in 0..50 {
        if d.process(r32(k as f32), &M).is_some() {
            outs += 1;
        }
    }
    assert_eq!(outs, 10);
    assert_eq!(d.phase(), 0);
}

#[test]
fn block_boundaries_do_not_restart_the_filter() {
    let taps = lowpass(33, 20_000.0, 250_000.0, 60.0);
    let input: Vec<f32> = (0..600).map(|k| (k as f32 * 0.017).sin()).collect();

    let mut one = FirDecimator::new(taps.clone(), 4);
    let want: Vec<Real32> = input.iter().filter_map(|x| one.process(r32(*x), &M)).collect();

    let mut chunked = FirDecimator::new(taps, 4);
    let mut got = Vec::new();
    for block in [&input[..7], &input[7..8], &input[8..200], &input[200..]] {
        for x in block {
            if let Some(y) = chunked.process(r32(*x), &M) {
                got.push(y);
            }
        }
    }

    assert_eq!(got.len(), want.len());
    for (a, b) in got.iter().zip(want.iter()) {
        assert!((d32(*a) - d32(*b)).abs() < 1e-6, "{a:?} vs {b:?}");
    }
}

#[test]
fn reset_clears_state_so_a_new_session_starts_clean() {
    let mut d = FirDecimator::new(reals(&[1.0, 1.0, 1.0]), 2);
    for k in 0..10 {
        d.process(r32(k as f32), &M);
    }
    d.reset();
    let mut fresh = FirDecimator::new(reals(&[1.0, 1.0, 1.0]), 2);
    for k in 0..10 {
        assert_eq!(d.process(r32(k as f32), &M), fresh.process(r32(k as f32), &M));
    }
}

#[test]
fn the_tap_estimate_actually_achieves_the_requested_attenuation() {
    for (target, fs, trans, cut) in [
        (60.0, 2_000_000.0, 155_000.0, 97_500.0),
        (80.0, 2_000_000.0, 155_000.0, 97_500.0),
        (80.0, 200_000.0, 5_000.0, 22_500.0),
        (100.0, 200_000.0, 5_000.0, 22_500.0),
    ] {
        let taps = taps_for(target, trans, fs);
        assert!(taps < 100_000, "estimate must be finite: {taps}");
        let h = lowpass(taps, cut, fs, target);
        let ctx = (fs, trans, cut);
        let stop = cut + trans / 2.0;
        let mut worst = f64::MIN;
        let mut f = stop;
        while f <= fs / 2.0 {
            worst = worst.max(response_db(&h, f, fs, 1e-15));
            f += trans / 8.0;
        }
        assert!(
            worst <= -target + 1.0,
            "target {target} dB at {ctx:?}: worst stopband {worst:.1} dB with {taps} taps"
        );
    }
}

// Planning and channelizing

const IN_RATE: f64 = 2_000_000.0;
const OUT_RATE: f64 = 50_000.0;
const PASSBAND: f64 = 20_000.0;
const STOPBAND: f64 = 25_000.0;
const STOP_DB: f64 = 80.0;
const MAX_TAPS: usize = 512;

fn plan_for(input: f64, output: f64, pass: f64, stop: f64, db: f64, taps: usize) -> Result<Vec<StagePlan>, String> {
    let req = PlanRequest {
        input_rate: r64(input),
        output_rate: r64(output),
        passband_hz: r64(pass),
        stopband_hz: r64(stop),
        stopband_db: r64(db),
        max_taps: taps,
    };
    plan_stages(r64(input), r64(output), r64(pass), r64(stop), r64(db), taps, &M)
        .map_err(|e: PlanError| e.message(&req, &M))
}

fn default_plan() -> Vec<StagePlan> {
    plan_for(IN_RATE, OUT_RATE, PASSBAND, STOPBAND, STOP_DB, MAX_TAPS).expect("plan")
}

fn tone(freq: f64, rate: f64, n: usize, amp: f32) -> Vec<Iq> {
    (0..n)
        .map(|k| {
            let ang = TAU * freq * k as f64 / rate;
            iq(amp * ang.cos() as f32, amp * ang.sin() as f32)
        })
        .collect()
}

fn channelizer(offset: f64) -> Channelizer {
    Channelizer::new(default_plan(), r64(offset), r64(IN_RATE), r64(STOP_DB), &M)
}

#[test]
fn plans_the_documented_two_stage_cascade() {
    let plan = default_plan();
    let factors: Vec<usize> = plan.iter().map(|s| s.factor).collect();
    assert_eq!(factors, vec![10, 4], "40 = 10 x 4, largest factor first");
    assert_eq!(d64(plan[0].input_rate), IN_RATE);
    assert_eq!(d64(plan[0].output_rate), 200_000.0);
    assert_eq!(d64(plan[1].input_rate), 200_000.0);
    assert_eq!(d64(plan[1].output_rate), OUT_RATE);
    for s in &plan {
        assert!(s.taps <= MAX_TAPS, "{s:?}");
        assert!(s.taps % 2 == 1, "odd taps for integer group delay");
        assert!(d64(s.cutoff_hz) > PASSBAND && d64(s.cutoff_hz) < d64(s.stopband_hz));
    }
    assert!(
        d64(plan[1].input_rate) < IN_RATE / 8.0,
        "last stage must run well below the input rate: {}",
        d64(plan[1].input_rate)
    );
    assert!(is_buildable(&plan));
}

#[test]
fn intermediate_stage_stopbands_extend_past_their_output_nyquist() {
    let plan = default_plan();
    for (idx, s) in plan.iter().enumerate() {
        let is_last = idx == plan.len() - 1;
        if is_last {
            assert!(
                d64(s.stopband_hz) <= OUT_RATE / 2.0 + 1e-9,
                "the last stage must stop at its own Nyquist: {s:?}"
            );
        } else {
            assert!(
                d64(s.stopband_hz) > d64(s.output_rate) / 2.0,
                "intermediate stages only protect the final channel: {s:?}"
            );
            assert!(
                (d64(s.output_rate) - d64(s.stopband_hz) - (OUT_RATE / 2.0)).abs() < 1e-9,
                "stopband should sit one channel-half apart from the output rate"
            );
        }
    }
}

#[test]
fn ratio_must_be_a_whole_number() {
    let err = plan_for(IN_RATE, 48_000.0, PASSBAND, 24_000.0, STOP_DB, MAX_TAPS)
        .expect_err("48 kS/s is not an integer decimation of 2 MS/s");
    assert!(err.contains("whole number"), "{err}");
    assert!(
        err.contains("resampler"),
        "the error must name the missing capability: {err}"
    );
}

#[test]
fn an_unaffordable_prime_ratio_is_rejected_with_guidance() {
    let out = IN_RATE / 41.0;
    let err = plan_for(IN_RATE, out, PASSBAND, out / 2.0, STOP_DB, MAX_TAPS).expect_err("41 needs ~2000 taps");
    assert!(err.contains("taps"), "{err}");
    assert!(err.contains("output rate"), "guidance: {err}");
}

#[test]
fn a_single_stage_plan_works_when_the_ratio_is_small() {
    let plan = plan_for(250_000.0, 50_000.0, PASSBAND, STOPBAND, STOP_DB, MAX_TAPS)
        .expect("5 is a single cheap stage");
    assert_eq!(plan.len(), 1);
    assert_eq!(plan[0].factor, 5);
    assert!(d64(plan[0].stopband_hz) <= 25_000.0 + 1e-9);
}

#[test]
fn refused_plans_say_why() {
    let err = |input: f64, output: f64, pass: f64, stop: f64, taps: usize| {
        plan_for(input, output, pass, stop, STOP_DB, taps).expect_err("refused")
    };
    assert_eq!(err(0.0, 5.0, 1.0, 2.0, 9), "rates must be positive: input 0, output 5");
    assert_eq!(err(f64::NAN, 5.0, 1.0, 2.0, 9), "rates must be positive: input NaN, output 5");
    assert_eq!(err(5.0, 6.0, 1.0, 2.0, 9), "output_rate (6) must not exceed input_rate (5)");
    assert_eq!(err(10.0, 5.0, 2.0, 2.0, 9), "need 0 < passband_hz (2) < stopband_hz (2)");
    assert_eq!(
        err(10.0, 5.0, 1.0, 2.75, 9),
        "stopband_hz (2.75) must not exceed the output Nyquist (2.5) \u{2014} content above it would alias into the channel"
    );
    assert_eq!(
        err(10.0, 4.0, 1.0, 2.0, 9),
        "input_rate / output_rate must be a whole number, got 2.5 (10 / 4). A fractional ratio needs a rational \
         resampler, which this channelizer deliberately does not have; pick an output rate that divides the input \
         rate (e.g. 50 kS/s from 2 MS/s, 2e6 / 40)."
    );
    assert_eq!(
        err(170_000.0, 10_000.0, 4_000.0, 5_000.0, 99),
        "cannot plan decimation by 17 from 170000 Hz to a 10000 Hz output within 99 taps: no factor in \
         2..=MAX_STAGE_FACTOR divides the ratio. Choose an output rate whose ratio factors into small integers."
    );
    assert_eq!(
        err(150_000.0, 50_000.0, 20_000.0, 25_000.0, 100),
        "cannot plan decimation by 3 from 150000 Hz to a 50000 Hz output within 100 taps: stage factor 3 needs 153 \
         taps, over the 100 budget (transition 5000 Hz at 150000 Hz input). Choose an output rate whose ratio \
         factors into small integers."
    );
}

#[test]
fn a_stage_without_a_transition_band_says_so() {
    let req = PlanRequest {
        input_rate: r64(100.0),
        output_rate: r64(10.0),
        passband_hz: r64(4.5),
        stopband_hz: r64(5.0),
        stopband_db: r64(80.0),
        max_taps: 9,
    };
    let e = PlanError::NoStage {
        remaining: 10,
        rate: r64(100.0),
        detail: StageFailure::NoTransition { factor: 5, stop: r64(4.25) },
    };
    assert_eq!(
        e.message(&req, &M),
        "cannot plan decimation by 10 from 100 Hz to a 10 Hz output within 9 taps: stage factor 5 leaves no \
         transition band (stopband 4.25 Hz <= passband 4.5 Hz). Choose an output rate whose ratio factors into \
         small integers."
    );
}

#[test]
fn output_rate_and_decimation_match_the_plan() {
    let mut ch = channelizer(200_000.0);
    assert_eq!(ch.decimation(), 40);
    assert_eq!(d64(ch.output_rate()), OUT_RATE);

    let input = tone(200_000.0, IN_RATE, 200_000, 0.5);
    let mut out = Vec::new();
    ch.process_iq(&input, &mut out, &M);
    assert_eq!(out.len(), 5_000);
}

#[test]
fn settling_adds_up_filter_lengths_at_the_input_rate() {
    let ch = channelizer(200_000.0);
    let plan = ch.plan();
    assert_eq!(ch.settling_samples(), plan[0].taps + 10 * plan[1].taps);
}

#[test]
fn inputs_on_their_way_are_counted() {
    let mut ch = channelizer(0.0);
    let mut out = Vec::new();
    ch.process_iq(&vec![Iq::zero(); 93], &mut out, &M);
    assert_eq!((out.len(), ch.pending_inputs()), (2, 13));
    ch.process(&[0i16; 2 * 27 + 1], &mut out, &M);
    assert_eq!((out.len(), ch.pending_inputs()), (3, 0));
}

#[test]
fn decimator_packet_size_invariance() {
    let input = tone(200_000.0 + 300.0, IN_RATE, 20_480, 0.5);

    let mut one_shot = channelizer(200_000.0);
    let mut want = Vec::new();
    one_shot.process_iq(&input, &mut want, &M);

    for chunk in [1usize, 333, 2048, 4999, 20_480] {
        let mut chunked = channelizer(200_000.0);
        let mut got = Vec::new();
        for part in input.chunks(chunk) {
            chunked.process_iq(part, &mut got, &M);
        }
        assert_eq!(got.len(), want.len(), "chunk={chunk}");
        for (a, b) in got.iter().zip(want.iter()) {
            assert!(
                (d32(a.i) - d32(b.i)).abs() < 1e-6 && (d32(a.q) - d32(b.q)).abs() < 1e-6,
                "chunk={chunk} diverged: {a:?} vs {b:?}"
            );
        }
    }
}

#[test]
fn an_in_channel_tone_survives_at_full_level() {
    let mut ch = channelizer(200_000.0);
    let input = tone(200_000.0, IN_RATE, 200_000, 0.5);
    let mut out = Vec::new();
    ch.process_iq(&input, &mut out, &M);

    let db = d32(power_dbfs(&out, &M));
    assert!((db - (-6.02)).abs() < 0.5, "output {db} dBFS");
}

#[test]
fn an_out_of_channel_interferer_is_rejected_by_more_than_100_db() {
    for interferer_khz in [600.0, 810.0, -600.0] {
        let mut ch = channelizer(200_000.0);
        let mut out = Vec::new();
        let f = 200_000.0 + interferer_khz * 1000.0;
        ch.process_iq(&tone(f, IN_RATE, 200_000, 5.0), &mut out, &M);

        let skip = ch.settling_samples() / ch.decimation();
        let settled = &out[skip..];
        let p = d32(mean_power(settled, &M).expect("output")) as f64;
        let attenuation_db = 10.0 * (25.0 / p.max(1e-30)).log10();
        println!("interferer {interferer_khz:+.0} kHz: {attenuation_db:.1} dB of attenuation");
        assert!(
            attenuation_db > 100.0,
            "interferer at {f} Hz: only {attenuation_db:.1} dB of attenuation"
        );
    }
}

#[test]
fn the_startup_transient_must_be_skipped_before_measuring_level() {
    let mut ch = channelizer(200_000.0);
    let mut out = Vec::new();
    ch.process_iq(&tone(200_000.0 + 600_000.0, IN_RATE, 200_000, 5.0), &mut out, &M);

    let naive = 10.0 * (25.0 / d32(mean_power(&out, &M).expect("out")) as f64).log10();
    let skip = ch.settling_samples() / ch.decimation();
    let settled = 10.0 * (25.0 / d32(mean_power(&out[skip..], &M).expect("out")) as f64).log10();
    println!(
        "whole-capture average {naive:.1} dB vs settled {settled:.1} dB (skipping {} output samples)",
        skip
    );

    assert!(naive < 80.0, "the transient-inclusive figure should look poor: {naive:.1} dB");
    assert!(settled > 100.0, "the settled window should be deep: {settled:.1} dB");
    assert!(
        settled > naive + 20.0,
        "settling region must be skipped: naive {naive:.1} dB vs settled {settled:.1} dB"
    );
}

#[test]
fn the_channel_is_centred_where_the_plan_says_it_is() {
    let offset = 200_000.0;
    let mut ch = channelizer(offset);
    let mut out = Vec::new();
    ch.process_iq(&tone(offset + 300.0, IN_RATE, 200_000, 0.5), &mut out, &M);
    let got = freq(&out, OUT_RATE, 50.0, 5_000.0).expect("tone");
    assert!((got - 300.0).abs() < 1.0, "measured {got} Hz");
}

#[test]
fn channel_below_the_wideband_centre_is_selected_too() {
    let offset = -300_000.0;
    let mut ch = channelizer(offset);
    let mut out = Vec::new();
    ch.process_iq(&tone(offset, IN_RATE, 200_000, 0.5), &mut out, &M);
    let db = d32(power_dbfs(&out, &M));
    assert!((db - (-6.02)).abs() < 0.5, "output {db} dBFS");
}

// Transform and tone

fn transform(re: &mut [f64], im: &mut [f64]) {
    let mut r: Vec<Real64> = re.iter().map(|v| r64(*v)).collect();
    let mut i: Vec<Real64> = im.iter().map(|v| r64(*v)).collect();
    fft_in_place(&mut r, &mut i, &M);
    for k in 0..r.len() {
        re[k] = d64(r[k]);
        im[k] = d64(i[k]);
    }
}

fn naive_dft(re: &[f64], im: &[f64], k: usize) -> (f64, f64) {
    let n = re.len();
    let mut sr = 0.0;
    let mut si = 0.0;
    for i in 0..n {
        let ang = -2.0 * PI * (k * i) as f64 / n as f64;
        let (s, c) = ang.sin_cos();
        sr += re[i] * c - im[i] * s;
        si += re[i] * s + im[i] * c;
    }
    (sr, si)
}

fn pseudo(n: usize) -> (Vec<f64>, Vec<f64>) {
    let mut re = Vec::with_capacity(n);
    let mut im = Vec::with_capacity(n);
    let mut state = 12345u64;
    for _ in 0..n {
        state = state
            .wrapping_mul(6364136223846793005)
            .wrapping_add(1442695040888963407);
        re.push(((state >> 33) as f64 / (1u64 << 31) as f64) - 1.0);
        state = state
            .wrapping_mul(6364136223846793005)
            .wrapping_add(1442695040888963407);
        im.push(((state >> 33) as f64 / (1u64 << 31) as f64) - 1.0);
    }
    (re, im)
}

#[test]
fn matches_the_naive_dft_definition() {
    for n in [2usize, 4, 8, 16, 64] {
        let (mut re, mut im) = pseudo(n);
        let (want_re, want_im) = (re.clone(), im.clone());
        transform(&mut re, &mut im);
        for k in 0..n {
            let (er, ei) = naive_dft(&want_re, &want_im, k);
            assert!(
                (re[k] - er).abs() < 1e-9 && (im[k] - ei).abs() < 1e-9,
                "n={n} k={k}: got ({}, {}), want ({er}, {ei})",
                re[k],
                im[k]
            );
        }
    }
}

#[test]
fn a_pure_tone_lands_in_the_expected_bin() {
    let n = 64usize;
    let k0 = 7usize;
    let mut re = vec![0.0; n];
    let mut im = vec![0.0; n];
    for k in 0..n {
        let ang = 2.0 * PI * (k0 * k) as f64 / n as f64;
        re[k] = ang.cos();
        im[k] = ang.sin();
    }
    transform(&mut re, &mut im);
    let mag = |k: usize| (re[k] * re[k] + im[k] * im[k]).sqrt();
    assert!((mag(k0) - n as f64).abs() < 1e-6, "peak at k0={k0}");
    for k in 0..n {
        if k != k0 {
            assert!(mag(k) < 1e-6, "leakage at bin {k}");
        }
    }
}

#[test]
fn lengths_below_two_are_no_ops() {
    let mut re = [3.0];
    let mut im = [-1.0];
    transform(&mut re, &mut im);
    assert_eq!((re[0], im[0]), (3.0, -1.0));
    transform(&mut [], &mut []);
}

fn freq(signal: &[Iq], rate: f64, lo: f64, hi: f64) -> Option<f64> {
    estimate_frequency(signal, r64(rate), r64(lo), r64(hi), &M).map(d64)
}

#[test]
fn recovers_a_complex_tone_offset_to_sub_hertz() {
    let rate = 50_000.0;
    let sig = complex_tone(1234.5, rate, 8192);
    let got = freq(&sig, rate, 100.0, 5000.0).expect("tone found");
    assert!((got - 1234.5).abs() < 0.5, "got {got} Hz");
}

#[test]
fn recovers_the_am_modulation_tone_from_the_envelope() {
    let rate = 50_000.0;
    let iq: Vec<Iq> = (0..20_000)
        .map(|k| {
            let t = k as f64 / rate;
            let amp = 1.0 + 0.5 * (2.0 * PI * 1000.0 * t).cos();
            iq(amp as f32, 0.0)
        })
        .collect();
    let env = envelope(&iq, &M);
    let got = freq(&env, rate, 50.0, 5000.0).expect("tone found");
    assert!((got - 1000.0).abs() < 0.5, "got {got} Hz");
}

#[test]
fn negative_offsets_are_reported_with_their_sign() {
    let rate = 50_000.0;
    let sig = complex_tone(-2000.0, rate, 8192);
    let got = freq(&sig, rate, -5000.0, -100.0).expect("tone found");
    assert!((got - (-2000.0)).abs() < 0.5, "got {got} Hz");
    assert_eq!(freq(&sig, rate, 100.0, 5000.0), None);
}

#[test]
fn rejects_degenerate_inputs_instead_of_returning_a_lie() {
    let rate = 50_000.0;
    assert_eq!(freq(&[], rate, 100.0, 1000.0), None);
    assert_eq!(freq(&[Iq::zero(); 4], rate, 100.0, 1000.0), None);
    assert_eq!(freq(&complex_tone(1000.0, rate, 1024), rate, 5000.0, 1000.0), None);
    assert_eq!(freq(&[Iq::zero(); 1024], rate, 100.0, 1000.0), None);
}

#[test]
fn picks_the_strongest_of_two_tones() {
    let rate = 50_000.0;
    let n = 16_384;
    let sig: Vec<Iq> = (0..n)
        .map(|k| {
            let t = k as f64 / rate;
            let weak = 0.2 * (2.0 * PI * 800.0 * t).cos();
            let strong = 1.0 * (2.0 * PI * 3000.0 * t).cos();
            iq((weak + strong) as f32, 0.0)
        })
        .collect();
    let got = freq(&sig, rate, 100.0, 6000.0).expect("tone found");
    assert!((got - 3000.0).abs() < 1.0, "got {got} Hz");
}

#[test]
fn a_band_is_judged_against_the_whole_spectrum() {
    // A strong tone below the centre and one 54 dB weaker above it.
    let rate = 50_000.0;
    let sig: Vec<Iq> = (0..8192)
        .map(|k| {
            let a = TAU * -6000.0 * k as f64 / rate;
            let b = TAU * 6000.0 * k as f64 / rate;
            iq((a.cos() + 0.002 * b.cos()) as f32, (a.sin() + 0.002 * b.sin()) as f32)
        })
        .collect();
    assert_eq!(freq(&sig, rate, 5000.0, 7000.0), None);
    let got = freq(&sig, rate, -7000.0, -5000.0).expect("tone found");
    assert!((got + 6000.0).abs() < 0.5, "got {got} Hz");
}

#[test]
fn a_carrier_at_the_centre_counts_only_when_it_is_kept() {
    let rate = 50_000.0;
    let sig: Vec<Iq> = (0..4096)
        .map(|k| {
            let t = k as f64 / rate;
            iq((1.0 + 0.5 * (TAU * 1000.0 * t).cos()) as f32, 0.0)
        })
        .collect();
    let kept = estimate_frequency_keeping_dc(&sig, r64(rate), r64(-20_000.0), r64(20_000.0), &M).map(d64);
    assert!(kept.expect("carrier").abs() < 1.0);
    let removed = freq(&sig, rate, -20_000.0, 20_000.0).expect("sideband");
    assert!((removed.abs() - 1000.0).abs() < 1.0, "{removed}");
    let tone = envelope_tone_hz(&sig, r64(rate), r64(50.0), r64(5_000.0), &M).map(d64).expect("tone");
    assert!((tone - 1000.0).abs() < 0.5, "{tone}");
}

// Vectors

fn spec() -> AmTone {
    AmTone {
        tone_hz: r64(1000.0),
        offset_hz: r64(200_000.0),
        sample_rate: r64(2_000_000.0),
        seconds: r64(0.05),
        depth: r64(0.5),
        amplitude: r64(0.5),
    }
}

fn stream(iq: &[Iq], rate: f64, per: usize, start: f64) -> (Vec<u8>, usize) {
    sigproc::vectors::vita49_stream(iq, r64(rate), per, r64(start), &M)
}

#[test]
fn sample_count_is_the_requested_duration() {
    assert_eq!(spec().samples(&M), 100_000);
    let mut s = spec();
    s.seconds = r64(0.0);
    assert_eq!(s.samples(&M), 0);
    assert!(s.generate(&M).is_empty());
}

#[test]
fn the_envelope_carries_the_requested_modulation() {
    let s = spec();
    let iq = s.generate(&M);
    let env = envelope(&iq, &M);
    let peak = env.iter().map(|v| d32(v.i)).fold(f32::MIN, f32::max) as f64;
    let trough = env.iter().map(|v| d32(v.i)).fold(f32::MAX, f32::min) as f64;
    assert!((peak - 0.75).abs() < 1e-3, "peak {peak}");
    assert!((trough - 0.25).abs() < 1e-3, "trough {trough}");
}

#[test]
fn the_generator_agrees_with_the_estimators_about_the_signal() {
    let s = spec();
    let iq = s.generate(&M);

    let carrier = freq(&iq, 2_000_000.0, 100_000.0, 400_000.0).expect("carrier offset found");
    assert!((carrier - 200_000.0).abs() < 5.0, "carrier at {carrier} Hz, expected 200000");

    let env = envelope(&iq, &M);
    let tone = freq(&env, 2_000_000.0, 50.0, 5_000.0).expect("tone found");
    assert!((tone - 1000.0).abs() < 0.5, "tone at {tone} Hz");
}

#[test]
fn a_negative_offset_generates_a_channel_below_the_centre() {
    let mut s = spec();
    s.offset_hz = r64(-200_000.0);
    let iq = s.generate(&M);
    let carrier = freq(&iq, 2_000_000.0, -400_000.0, -100_000.0).expect("carrier found below the centre");
    assert!((carrier + 200_000.0).abs() < 5.0, "carrier at {carrier} Hz");
}

#[test]
fn depth_is_clamped_because_over_modulation_is_not_plain_am() {
    let mut s = spec();
    s.depth = r64(3.0);
    assert_eq!(d64(s.peak_amplitude(&M)), d64(s.amplitude) * 2.0);
    let env = envelope(&s.generate(&M), &M);
    assert!(
        env.iter().all(|v| d32(v.i) >= 0.0),
        "an over-modulated envelope inverts; clamping keeps it non-negative"
    );
}

#[test]
fn peak_amplitude_exposes_the_clipping_risk_to_callers() {
    let mut s = spec();
    assert!((d64(s.peak_amplitude(&M)) - 0.75).abs() < 1e-12, "0.5 x (1 + 0.5)");
    s.amplitude = r64(0.8);
    s.depth = r64(0.5);
    assert!(d64(s.peak_amplitude(&M)) > 1.0, "callers must be able to refuse this");
}

#[test]
fn a_packet_stream_round_trips_and_has_a_continuous_sample_counter() {
    let s = spec();
    let iq = s.generate(&M);
    let (bytes, packets) = stream(&iq, 2_000_000.0, 2048, 0.0);
    assert_eq!(packets, 49, "100 000 samples in 2048-sample packets");

    let mut cursor = PacketCursor::new(&bytes);
    let mut payload = Vec::new();
    let mut counters = Vec::new();
    while let Some(next) = cursor.next_packet() {
        let pkt = next.expect("parses");
        counters.push(pkt.sample_counter(s.sample_rate, &M).expect("fits"));
        payload.extend_from_slice(&pkt.iq_i16());
    }
    assert!(cursor.is_exhausted());
    assert_eq!(payload.len(), iq.len() * 2, "every sample is present");
    assert_eq!(payload, iq_to_sc16(&iq));

    for pair in counters.windows(2) {
        assert_eq!(pair[1] - pair[0], 2048);
    }
    assert_eq!(counters[0], 0);
}

#[test]
fn a_stream_starting_at_a_nonzero_time_starts_there() {
    let s = spec();
    let (bytes, _) = stream(&s.generate(&M), 2_000_000.0, 1024, 12.0);
    let mut cursor = PacketCursor::new(&bytes);
    let first = cursor.next_packet().expect("first").expect("parses");
    assert_eq!(first.sample_counter(s.sample_rate, &M), Some(12 * 2_000_000));
}

#[test]
fn fixture_roundtrip() {
    let s = spec();
    let expected_samples = s.samples(&M);
    let (bytes, packets) = stream(&s.generate(&M), 2_000_000.0, 2048, 0.0);

    let mut cursor = PacketCursor::new(&bytes);
    let mut samples = 0usize;
    let mut first_ts = None;
    let mut last_ts = 0u64;
    while let Some(next) = cursor.next_packet() {
        let pkt = next.expect("every packet parses");
        samples += pkt.samples();
        let counter = pkt.sample_counter(s.sample_rate, &M).expect("fits");
        first_ts.get_or_insert(counter);
        last_ts = counter;
    }
    assert!(cursor.is_exhausted());
    assert_eq!(samples, expected_samples, "sample count is preserved exactly");
    assert_eq!(packets, 49);
    assert_eq!(first_ts, Some(0), "the first packet starts at t=0");
    let last_samples = expected_samples - (packets - 1) * 2048;
    assert_eq!(
        last_ts + last_samples as u64,
        expected_samples as u64,
        "timestamps account for every sample, with no drift"
    );
}

#[test]
fn an_empty_signal_makes_an_empty_stream() {
    assert_eq!(stream(&[], 2_000_000.0, 2048, 0.0), (Vec::new(), 0));
}

// Metrics and messages with numbers

#[test]
fn counters_accumulate_and_render_the_metric_names_the_gates_assert() {
    let mut m = Metrics::new();
    m.record_packet_received();
    m.record_packet_received();
    m.record_packets_dropped(3);
    m.record_gap(2048);
    m.record_samples(1000, 25);
    m.set_output_power_dbfs(r32(-6.02), &M);
    m.set_peak_offset_hz(r32(300.5), &M);

    let text = m.render("channelizer");
    for expected in [
        "channelizer_vita49_packets_received_total 2",
        "channelizer_vita49_packets_dropped_total 3",
        "channelizer_vita49_seq_gaps_total 1",
        "channelizer_vita49_gap_samples_total 2048",
        "channelizer_samples_in_total 1000",
        "channelizer_samples_out_total 25",
        "channelizer_output_power_dbfs -6.02",
        "channelizer_peak_offset_hz 300.5",
    ] {
        assert!(text.contains(expected), "missing `{expected}` in:\n{text}");
    }
    assert_eq!(text.matches("# TYPE").count(), 9);
    m.set_input_power_dbfs(r32(f32::INFINITY), &M);
    assert!(m.render("x").contains("x_input_power_dbfs NaN"), "no infinite gauge is shown");
}

#[test]
fn broken_configuration_rules_are_named() {
    assert_eq!(
        ConfigError::CenterFreq(r64(-1.5)).message(&M),
        "center_freq must be positive (Hz), got -1.5"
    );
    assert_eq!(
        ConfigError::SampleRate(r64(0.0)).message(&M),
        "sample_rate must be positive (Hz), got 0"
    );
    assert_eq!(
        ConfigError::Bandwidth(r64(-2.0)).message(&M),
        "bandwidth must be positive (Hz), got -2"
    );
    assert_eq!(ConfigError::DestPort.message(&M), "vita49_dest_port must be non-zero");
}

// The pipeline

const INPUT_RATE: f64 = 2_000_000.0;
const OUTPUT_RATE: f64 = 50_000.0;

fn channel(offset_hz: f64) -> ChannelConfig {
    ChannelConfig {
        offset_hz: r64(offset_hz),
        output_rate_hz: r64(OUTPUT_RATE),
        passband_hz: None,
        stopband_db: r64(80.0),
        max_taps: 512,
    }
}

fn service_into<S: OutputSink>(offset_hz: f64, sink: S) -> ChannelizerService<S> {
    let (plan, cfg) =
        ServiceConfig::from_channel(&channel(offset_hz), r64(INPUT_RATE), &M).expect("plan is affordable");
    assert!(is_deployable(&plan));
    ChannelizerService::new(plan, cfg, sink, Metrics::new(), &M)
}

fn service(offset_hz: f64) -> ChannelizerService<CollectingSink> {
    service_into(offset_hz, CollectingSink::default())
}

fn fixture(signal_offset_hz: f64, seconds: f64) -> Vec<u8> {
    let spec = AmTone {
        tone_hz: r64(1000.0),
        offset_hz: r64(signal_offset_hz),
        sample_rate: r64(INPUT_RATE),
        seconds: r64(seconds),
        depth: r64(0.5),
        amplitude: r64(0.5),
    };
    stream(&spec.generate(&M), INPUT_RATE, 2048, 0.0).0
}

fn feed_all(svc: &mut ChannelizerService<CollectingSink>, bytes: &[u8]) -> usize {
    let mut cursor = PacketCursor::new(bytes);
    let mut fed = 0;
    while let Some(next) = cursor.next_slice() {
        match next {
            Ok(raw) => {
                svc.process_datagram(raw, &M).expect("counters fit");
                fed += 1;
            }
            Err(_) => svc.note_malformed(),
        }
    }
    fed
}

#[test]
fn replay_of_a_fixture_delivers_the_expected_rate_tone_and_centred_channel() {
    let bytes = fixture(200_000.0, 0.25);
    let mut svc = service(200_000.0);
    let fed = feed_all(&mut svc, &bytes);
    assert_eq!(fed, 245, "0.25 s at 2 MS/s in 2048-sample packets");

    let (report, sink) = svc.finish_with_sink(&M);

    assert!(report.ok, "clean replay must be ok: {report:?}");
    assert_eq!(report.malformed_packets, 0);
    assert_eq!(report.packets_dropped, 0);
    assert_eq!(report.seq_gaps, 0);
    assert_eq!(report.samples_in, 500_000);
    assert_eq!(report.samples_out, 12_500);
    assert_eq!(report.decimation, 40);
    assert_eq!(d64(sink.rate), OUTPUT_RATE);

    let tone = envelope_tone_hz(&sink.samples(), r64(OUTPUT_RATE), r64(50.0), r64(5_000.0), &M)
        .map(d64)
        .expect("tone found");
    assert!((tone - 1000.0).abs() < 1.0, "recovered {tone} Hz");

    let offset = d32(report.peak_offset_hz.expect("offset measured"));
    assert!(offset.abs() < 50.0, "centred channel reported {offset} Hz of offset");

    let power = d32(report.output_power_dbfs.expect("power measured"));
    assert!(
        (-7.0..-4.0).contains(&power),
        "output power {power} dBFS outside the expected band"
    );
}

#[test]
fn gap_marking() {
    let bytes = fixture(200_000.0, 0.05);

    let mut cursor = PacketCursor::new(&bytes);
    let mut packets: Vec<&[u8]> = Vec::new();
    while let Some(next) = cursor.next_slice() {
        packets.push(next.expect("fixture parses"));
    }
    assert_eq!(packets.len(), 49, "0.05 s at 2048-sample packets");

    let mut ablated = Vec::new();
    for (i, packet) in packets.iter().enumerate() {
        if i == 3 {
            continue;
        }
        ablated.extend_from_slice(packet);
    }

    let mut svc = service(200_000.0);
    let fed = feed_all(&mut svc, &ablated);
    assert_eq!(svc.discontinuities().len(), 1);
    let (report, _sink) = svc.finish_with_sink(&M);

    assert_eq!(fed, 48, "49 packets minus the ablated one");
    assert_eq!(report.seq_gaps, 1, "the discontinuity must be counted");
    assert_eq!(report.gap_samples, 2048, "and measured, not just flagged");
    assert!(!report.ok, "a discontinuity must fail the report");

    assert_eq!(report.discontinuities.len(), 1);
    let d = &report.discontinuities[0];
    assert_eq!(d.at_input_sample, 2048 * 4);
    assert_eq!(d.missing_samples, 2048);
    assert_eq!(d.at_output_sample, 153 + 52);
    assert!(d.at_output_sample < report.samples_out);
}

#[test]
fn malformed_input_is_counted_not_fatal_on_the_udp_path() {
    let first = build_packet(&vec![100i16; 2048 * 2], 0.0, INPUT_RATE);
    let second = build_packet(&vec![100i16; 2048 * 2], 2048.0 / INPUT_RATE, INPUT_RATE);
    let garbage = [0xDEu8, 0xAD, 0xBE, 0xEF, 0x00];

    let mut svc = service(200_000.0);
    assert!(!svc.process_datagram(&first, &M).expect("fits").malformed);
    assert!(
        svc.process_datagram(&garbage, &M).expect("fits").malformed,
        "garbage must be reported as malformed"
    );
    assert!(!svc.process_datagram(&second, &M).expect("fits").malformed);

    let (report, sink) = svc.finish_with_sink(&M);
    assert_eq!(report.malformed_packets, 1, "the bad datagram is counted");
    assert_eq!(report.packets_received, 2, "both good datagrams were processed");
    assert!(!report.ok, "a malformed packet must fail the report");
    assert!(
        !sink.packets.is_empty(),
        "the service kept running and produced output"
    );
}

#[test]
fn a_framing_error_in_a_file_is_counted_and_ends_the_walk() {
    let first = build_packet(&vec![100i16; 2048 * 2], 0.0, INPUT_RATE);
    let second = build_packet(&vec![100i16; 2048 * 2], 2048.0 / INPUT_RATE, INPUT_RATE);

    let mut stream = first;
    stream.extend_from_slice(&[0xDE, 0xAD, 0xBE, 0xEF, 0x00]);
    stream.extend_from_slice(&second);

    let mut svc = service(200_000.0);
    let fed = feed_all(&mut svc, &stream);
    let (report, _sink) = svc.finish_with_sink(&M);

    assert_eq!(fed, 1, "the walk stops at the corrupt record");
    assert_eq!(report.malformed_packets, 1, "and it is counted");
    assert!(
        !report.ok,
        "a file the reader could not finish must not report ok"
    );
}

#[test]
fn output_packets_are_bounded_and_timestamps_are_contiguous() {
    let bytes = fixture(200_000.0, 0.1);
    let mut svc = service(200_000.0);
    feed_all(&mut svc, &bytes);
    let (report, sink) = svc.finish_with_sink(&M);
    assert!(report.ok, "{report:?}");

    assert!(
        sink.packets.len() > 2,
        "expected several output packets, got {}",
        sink.packets.len()
    );
    for (i, (sc16, _)) in sink.packets.iter().enumerate() {
        let iq = sc16.len() / 2;
        if i + 1 == sink.packets.len() {
            assert!(
                iq <= OUTPUT_PACKET_SAMPLES,
                "final packet {i} has {iq} samples"
            );
        } else {
            assert_eq!(iq, OUTPUT_PACKET_SAMPLES, "packet {i} must be full");
        }
    }

    let step = OUTPUT_PACKET_SAMPLES as f64 / OUTPUT_RATE;
    let stamps: Vec<f64> = sink.timestamps().into_iter().map(d64).collect();
    for (i, pair) in stamps.windows(2).enumerate() {
        let delta = pair[1] - pair[0];
        assert!(
            (delta - step).abs() < 1e-9,
            "packet {} -> {}: step {delta}, expected {step}",
            i,
            i + 1
        );
    }
    assert!(stamps[0].abs() < 1e-9, "the stream starts at zero");
}

#[test]
fn level_and_offset_are_not_published_before_settling() {
    let bytes = fixture(200_000.0, 0.01);
    let mut svc = service(200_000.0);
    feed_all(&mut svc, &bytes);
    let (report, _sink) = svc.finish_with_sink(&M);

    assert_eq!(report.samples_out, 500);
    assert!(
        report.samples_out < 4096,
        "precondition: less than one measurement block"
    );
    assert_eq!(report.output_power_dbfs, None, "no level published yet");
    assert_eq!(report.peak_offset_hz, None, "no offset published yet");
}

#[test]
fn an_off_centre_channel_reports_a_non_zero_offset() {
    let bytes = fixture(200_000.0, 0.25);
    let mut svc = service(200_800.0);
    feed_all(&mut svc, &bytes);
    let (report, _sink) = svc.finish_with_sink(&M);

    let offset = d32(report.peak_offset_hz.expect("offset measured"));
    assert!(
        (offset + 800.0).abs() < 30.0,
        "expected about -800 Hz (signal below the channel centre), got {offset}"
    );
}

#[test]
fn a_hole_separates_output_packets() {
    let mut svc = service(0.0);
    let a = build_packet(&vec![0i16; 2 * 400], 0.0, INPUT_RATE);
    let b = build_packet(&vec![0i16; 2 * 400], 1001.0 / INPUT_RATE, INPUT_RATE);
    let first = svc.process_datagram(&a, &M).expect("fits");
    assert_eq!((first.samples_in, first.samples_out, first.gap), (400, 10, None));
    let second = svc.process_datagram(&b, &M).expect("fits");
    let gap = second.gap.expect("gap");
    assert_eq!((gap.at_input_sample, gap.missing_samples, gap.at_output_sample), (1001, 601, 10 + 16));
    assert_eq!(svc.samples_out(), 10 + 10, "samples emitted");
    assert_eq!(svc.output_position(), 10 + 16 + 10, "the hole is on the timeline");
    assert_eq!(svc.metrics().gap_samples(), 601);
    let (_, sink) = svc.finish_with_sink(&M);
    let stamps: Vec<f64> = sink.timestamps().into_iter().map(d64).collect();
    assert_eq!(stamps, vec![0.0, 26.0 / OUTPUT_RATE]);
    assert_eq!(sink.packets[0].0.len(), 20);
    assert_eq!(sink.packets[1].0.len(), 20);
}

#[test]
fn a_counter_that_does_not_fit_changes_nothing() {
    let mut svc = service(0.0);
    let far = frame(&[0; 8], 1, u64::MAX);
    assert_eq!(svc.process_datagram(&far, &M).expect_err("overflow"), CounterOverflow);
    let (report, sink) = svc.finish_with_sink(&M);
    assert_eq!((report.packets_received, report.samples_in, report.malformed_packets), (0, 0, 0));
    assert!(sink.packets.is_empty());
    assert!(report.ok);
}

#[test]
fn interleaved_samples_may_be_fed_directly() {
    let mut svc = service(0.0);
    assert_eq!(svc.process_interleaved(&[0i16; 2 * 85 + 1], &M), 2);
    assert_eq!(svc.samples_out(), 2);
    assert_eq!(svc.plan().len(), 2);
    assert_eq!(svc.settling_samples(), svc.plan()[0].taps + 10 * svc.plan()[1].taps);
    assert_eq!(svc.finish(&M).samples_in, 0, "only packets count as input");
}

struct LossySink {
    sends: u64,
}

impl OutputSink for LossySink {
    fn send(&mut self, _samples: &[i16], _ts: Real64, _rate: Real64) {
        self.sends += 1;
    }

    fn dropped_packets(&self) -> u64 {
        self.sends / 2
    }
}

#[test]
fn drops_of_the_sink_are_mirrored_and_fail_the_report() {
    let mut svc = service_into(0.0, LossySink { sends: 0 });
    for k in 0..60u64 {
        let pkt = frame(&[0i16; 2 * 2048], 0, k * 2048);
        svc.process_datagram(&pkt, &M).expect("fits");
    }
    // 122 880 inputs make 3072 outputs, exactly three packets.
    assert_eq!(svc.metrics().packets_dropped(), 1);
    let (report, sink) = svc.finish_with_sink(&M);
    assert_eq!(sink.sends, 3);
    assert_eq!(report.packets_dropped, 1);
    assert!(!report.ok);
}

#[test]
fn a_replay_counts_packets_and_faults() {
    let mut bytes = fixture(0.0, 0.01);
    bytes.extend_from_slice(&[1, 2, 3]);
    let mut svc = service(0.0);
    assert_eq!(replay(&bytes, &mut svc, &M), Ok(10));
    assert_eq!(svc.malformed(), 1);
    let report = svc.finish(&M);
    assert_eq!(report.packets_received, 10);
    assert!(!report.ok);

    let mut svc = service(0.0);
    let mut cursor = PacketCursor::new(&bytes[bytes.len() - 3..]);
    match replay_step(&mut cursor, &mut svc, &M) {
        Ok(ReplayStep::Malformed(e)) => assert_eq!(e, ParseError::TooShort { got: 3 }),
        other => panic!("{other:?}"),
    }
    assert!(matches!(replay_step(&mut cursor, &mut svc, &M), Ok(ReplayStep::Done)));

    let far = frame(&[0; 8], 1, u64::MAX);
    assert_eq!(replay(&far, &mut svc, &M), Err(CounterOverflow));
}

#[test]
fn a_replay_goes_on_behind_a_packet_that_does_not_fit() {
    let mut bytes = frame(&[0; 8], 1, u64::MAX);
    let mut wrong_type = frame(&[0; 8], 1, 0);
    wrong_type[0] = 0x50;
    bytes.extend_from_slice(&wrong_type);
    bytes.extend_from_slice(&frame(&[0; 8], 1, 0));
    let mut svc = service(0.0);
    let mut cursor = PacketCursor::new(&bytes);
    assert!(matches!(replay_step(&mut cursor, &mut svc, &M), Err(CounterOverflow)));
    match replay_step(&mut cursor, &mut svc, &M) {
        Ok(ReplayStep::Packet(outcome, fault)) => {
            assert!(outcome.malformed);
            assert_eq!(fault, Some(ParseError::UnsupportedPacketType(5)));
        }
        other => panic!("{other:?}"),
    }
    match replay_step(&mut cursor, &mut svc, &M) {
        Ok(ReplayStep::Packet(outcome, fault)) => assert_eq!((outcome.samples_in, fault), (4, None)),
        other => panic!("{other:?}"),
    }
    assert!(matches!(replay_step(&mut cursor, &mut svc, &M), Ok(ReplayStep::Done)));
    assert_eq!((svc.malformed(), svc.metrics().packets_received()), (1, 1));
}

#[test]
fn real_time_replay_waits_for_what_is_left() {
    let wait = pause_after(2_000_000, r64(2_000_000.0), r64(0.25), &M).map(d64);
    assert_eq!(wait, Some(0.75));
    assert_eq!(pause_after(2_000_000, r64(2_000_000.0), r64(1.0), &M), None);
}

#[test]
fn a_band_without_numbers_is_out_of_order() {
    let nan = f64::NAN;
    let plan = |input: f64, pass: f64, stop: f64| {
        plan_stages(r64(input), r64(5e4), r64(pass), r64(stop), r64(80.0), 512, &M)
    };
    assert_eq!(plan(2e6, nan, 2.5e4), Err(PlanError::BandOrder));
    assert_eq!(plan(2e6, 2e4, nan), Err(PlanError::BandOrder));
    assert_eq!(plan(2e6, 2e4, 2e4), Err(PlanError::BandOrder));
    assert_eq!(plan(nan, 2e4, 2.5e4), Err(PlanError::RatesNotPositive));
}

#[test]
fn channels_have_defaults() {
    let c = channel(0.0);
    assert_eq!(d64(c.passband(&M)), 0.4 * OUTPUT_RATE);
    assert_eq!(d64(c.stopband(&M)), OUTPUT_RATE / 2.0);
    assert_eq!(c.decimation(r64(INPUT_RATE), &M), Ok(40));
    assert_eq!(c.decimation(r64(1_990_000.0), &M), Err(PlanError::FractionalRatio { ratio: r64(39.8) }));
    let mut wide = c;
    wide.passband_hz = Some(r64(24_000.0));
    assert_eq!(d64(wide.passband(&M)), 24_000.0);
    wide.max_taps = 400;
    match wide.plan(r64(INPUT_RATE), &M) {
        Err(PlanError::NoStage { remaining: 2, rate, detail: StageFailure::OverBudget { factor, .. } }) => {
            assert_eq!((d64(rate), factor), (100_000.0, 2));
        }
        other => panic!("{other:?}"),
    }
    let empty: Vec<StagePlan> = Vec::new();
    assert!(!is_deployable(&empty));
}

// The verification consumer

fn sink_config() -> SinkConfig {
    SinkConfig {
        expect_rate: r64(OUTPUT_RATE),
        expect_tone: Some(r64(1000.0)),
        tone_tolerance: r64(5.0),
        max_measure_samples: 100_000,
        deadline: Some(100),
        idle_limit: Some(10),
        report_interval: Some(20),
    }
}

fn am_packets(tone_hz: f64, packets: usize) -> Vec<u8> {
    let spec = AmTone {
        tone_hz: r64(tone_hz),
        offset_hz: r64(0.0),
        sample_rate: r64(OUTPUT_RATE),
        seconds: r64(packets as f64 * 1024.0 / OUTPUT_RATE),
        depth: r64(0.5),
        amplitude: r64(0.5),
    };
    stream(&spec.generate(&M), OUTPUT_RATE, 1024, 0.0).0
}

fn receive(sink: &mut VerificationSink, bytes: &[u8], skip: Option<usize>) {
    let mut cursor = PacketCursor::new(bytes);
    let mut k = 0;
    while let Some(next) = cursor.next_slice() {
        if Some(k) != skip {
            assert_eq!(sink.on_datagram(next.expect("framed"), 7, &M), Ok(None));
        }
        k += 1;
    }
}

#[test]
fn a_good_stream_passes() {
    let mut sink = VerificationSink::new(sink_config(), 0);
    receive(&mut sink, &am_packets(1000.0, 8), None);
    let v = sink.verdict(&M);
    assert!(v.ok, "{v:?}");
    assert_eq!((v.packets, v.samples, v.malformed, v.seq_gaps, v.resets), (8, 8192, 0, 0, 0));
    assert!(d64(v.tone_error_hz.expect("judged")).abs() < 1.0);
    let level = d32(v.power_dbfs.expect("level"));
    assert!((-7.0..-4.0).contains(&level), "{level}");
    assert_eq!(sink.counts(), (8, 8192, 0));
}

#[test]
fn a_wrong_tone_a_gap_and_a_fault_do_not_pass() {
    let mut wrong = VerificationSink::new(sink_config(), 0);
    receive(&mut wrong, &am_packets(1100.0, 8), None);
    let v = wrong.verdict(&M);
    assert!(!v.ok);
    assert!((d64(v.tone_error_hz.expect("judged")) - 100.0).abs() < 1.0);

    let mut cfg = sink_config();
    cfg.expect_tone = None;
    let mut any = VerificationSink::new(cfg, 0);
    receive(&mut any, &am_packets(1100.0, 8), None);
    assert!(any.verdict(&M).ok);

    let mut gap = VerificationSink::new(cfg, 0);
    receive(&mut gap, &am_packets(1000.0, 8), Some(3));
    let v = gap.verdict(&M);
    assert!(!v.ok);
    assert_eq!((v.seq_gaps, v.gap_samples), (1, 1024));
    assert_eq!(gap.continuity().gaps(), 1);

    assert_eq!(any.on_datagram(&[0; 4], 8, &M), Ok(Some(ParseError::TooShort { got: 4 })));
    assert!(!any.verdict(&M).ok);
    assert_eq!(any.on_datagram(&frame(&[], 1, u64::MAX), 8, &M), Err(CounterOverflow));

    let mut misplaced = VerificationSink::new(cfg, 0);
    receive(&mut misplaced, &am_packets(1100.0, 8), None);
    misplaced.note_malformed();
    let v = misplaced.verdict(&M);
    assert_eq!((v.ok, v.malformed), (false, 1));
}

#[test]
fn a_whole_run_is_accounted_for_to_the_sample() {
    let mut svc = service(0.0);
    let mut bytes = Vec::new();
    for k in 0..3u64 {
        bytes.extend_from_slice(&frame(&vec![0i16; 2 * 20_001], 0, k * 20_001));
    }
    assert_eq!(replay(&bytes, &mut svc, &M), Ok(3));
    let (report, sink) = svc.finish_with_sink(&M);
    assert_eq!((report.samples_in, report.decimation), (60_003, 40));
    assert_eq!(report.samples_out, 60_003 / 40);
    let carried: usize = sink.packets.iter().map(|(sc16, _)| sc16.len() / 2).sum();
    assert_eq!(carried, 1500);
}

#[test]
fn the_test_signal_follows_the_am_formula() {
    let iq = spec().generate(&M);
    for k in [0usize, 1, 777, 99_999] {
        let t = k as f64 / 2_000_000.0;
        let tau = std::f64::consts::TAU;
        let envelope = 0.5 * (1.0 + 0.5 * (tau * 1000.0 * t).cos());
        let phase = tau * 200_000.0 * t;
        assert_eq!(d32(iq[k].i), (envelope * phase.cos()) as f32, "sample {k}");
        assert_eq!(d32(iq[k].q), (envelope * phase.sin()) as f32, "sample {k}");
    }
}

#[test]
fn a_small_transform_is_exactly_the_sum() {
    let mut re: Vec<Real64> = [1.0, 2.0].iter().map(|v| r64(*v)).collect();
    let mut im: Vec<Real64> = [0.0, 3.0].iter().map(|v| r64(*v)).collect();
    fft_in_place(&mut re, &mut im, &M);
    assert_eq!((d64(re[0]), d64(im[0])), (3.0, 3.0));
    assert!((d64(re[1]) + 1.0).abs() < 1e-15 && (d64(im[1]) + 3.0).abs() < 1e-15);
}

#[test]
fn nothing_received_is_no_pass_and_no_idle_exit() {
    let mut sink = VerificationSink::new(sink_config(), 0);
    let v = sink.verdict(&M);
    assert!(!v.ok);
    assert_eq!((v.decoded_hz, v.power_dbfs, v.tone_error_hz), (None, None, None));
    assert_eq!(sink.on_idle(15), IdleAction::Wait);
    assert_eq!(sink.on_idle(20), IdleAction::Report);
    assert_eq!(sink.on_idle(39), IdleAction::Wait);
    assert_eq!(sink.on_idle(40), IdleAction::Report);
    assert_eq!(sink.on_idle(100), IdleAction::FinishDeadline);
}

#[test]
fn a_stream_that_falls_silent_is_finished() {
    let mut sink = VerificationSink::new(sink_config(), 0);
    assert_eq!(sink.on_datagram(&frame(&[1, 2], 0, 0), 7, &M), Ok(None));
    assert_eq!(sink.on_idle(16), IdleAction::Wait);
    assert_eq!(sink.on_idle(17), IdleAction::FinishIdle);
    assert_eq!(sink.on_idle(200), IdleAction::FinishIdle, "silence is looked at first");
}

#[test]
fn the_most_recent_samples_are_measured() {
    let mut cfg = sink_config();
    cfg.max_measure_samples = 1;
    cfg.expect_tone = None;
    let mut sink = VerificationSink::new(cfg, 0);
    sink.on_datagram(&frame(&[32767, 0, 16384, 0], 0, 0), 0, &M).expect("fits");
    let v = sink.verdict(&M);
    assert_eq!(v.samples, 2);
    assert!((d32(v.power_dbfs.expect("level")) + 6.0206).abs() < 1e-3);
}

//! Continuity tracking, metrics, requests, forwarding and plain packet fields.

use sigproc::bytes::{push_i16, push_u32, push_u64, read_i16, read_u32, read_u64};
use sigproc::capture::{batch, stream_id, SAMPLES_PER_READ};
use sigproc::config::{default_antenna, Config, ConfigError, DeviceConfig, ForwardingConfig, RfConfig};
use sigproc::dsp::{GapMarker, GapTracker};
use sigproc::http::{request_path, respond};
use sigproc::ieee::{Real32, Real64};
use sigproc::metrics::Metrics;
use sigproc::service::replay::{choose_mode, InputMode};
use sigproc::service::sink::is_enabled;
use sigproc::text::{push_decimal, push_hex};
use sigproc::vita49::forwarder::{DROP_WARN_INTERVAL, RESOLVE_RETRY_INTERVAL, SEND_DROP_WARN_INTERVAL};
use sigproc::vita49::packet::HEADER_BYTES;
use sigproc::vita49::{frame, parse, timestamp_fields};
use sigproc::vita49::{ForwardAction, PacketCursor, ParseError, SendOutcome, SendReport, Vita49Forwarder};

fn r64(v: f64) -> Real64 {
    Real64 { bits: v.to_bits() }
}

fn r32(v: f32) -> Real32 {
    Real32 { bits: v.to_bits() }
}

#[test]
fn a_contiguous_stream_reports_nothing() {
    let mut t = GapTracker::new();
    for i in 0..100 {
        assert_eq!(t.observe(i * 2048, 2048), None, "packet {i}");
    }
    assert_eq!((t.gaps(), t.gap_samples(), t.resets()), (0, 0, 0));
    assert!(t.is_contiguous());
    assert_eq!(t.last_marker(), None);
}

#[test]
fn a_skipped_packet_is_measured_in_samples() {
    let mut t = GapTracker::new();
    t.observe(0, 2048);
    t.observe(2048, 2048);
    let marker = t.observe(2048 * 5, 2048).expect("gap detected");
    assert_eq!(marker.at_sample, 2048 * 5);
    assert_eq!(marker.missing_samples, 2048 * 3);
    assert_eq!(t.gaps(), 1);
    assert_eq!(t.gap_samples(), 2048 * 3);
    assert!(!t.is_contiguous());
    assert_eq!(t.last_marker(), Some(marker));
}

#[test]
fn several_gaps_accumulate_independently() {
    let mut t = GapTracker::new();
    t.observe(0, 100);
    t.observe(250, 100); // missing 150
    t.observe(350, 100);
    t.observe(1000, 100); // missing 550
    assert_eq!(t.gaps(), 2);
    assert_eq!(t.gap_samples(), 700);
}

#[test]
fn backwards_counters_are_resets_not_gaps() {
    let mut t = GapTracker::new();
    t.observe(10_000, 2048);
    assert_eq!(t.observe(0, 2048), None, "restart is not a gap");
    assert_eq!(t.gaps(), 0);
    assert_eq!(t.resets(), 1);
    assert!(!t.is_contiguous());

    // Resynchronised: the next contiguous packet is quiet again.
    assert_eq!(t.observe(2048, 2048), None);
    assert_eq!(t.resets(), 1);
}

#[test]
fn a_single_sample_gap_is_still_a_gap() {
    let mut t = GapTracker::new();
    t.observe(0, 2048);
    let m = t.observe(2049, 2048).expect("one sample lost");
    assert_eq!(m.missing_samples, 1);
}

#[test]
fn the_first_packet_establishes_the_reference_without_a_gap() {
    let mut t = GapTracker::new();
    assert_eq!(t.observe(987_654, 2048), None);
    assert_eq!(t.observe(987_654 + 2048, 2048), None);
    assert!(t.is_contiguous());
}

#[test]
fn received_and_missing_samples_cover_the_span() {
    let mut t = GapTracker::default();
    let packets: [(u64, u64); 4] = [(10, 5), (20, 5), (25, 1), (40, 2)];
    let mut carried = 0u64;
    for (counter, samples) in packets {
        assert!(t.can_observe(counter));
        t.observe(counter, samples);
        carried += samples;
    }
    assert_eq!(10 + carried + t.gap_samples(), 42);
    assert_eq!(t.last_marker(), Some(GapMarker { at_sample: 40, missing_samples: 14 }));
}

#[test]
fn a_gap_that_cannot_be_counted_is_known_beforehand() {
    let mut t = GapTracker::new();
    t.observe(0, 0);
    assert_eq!(t.missing_before(u64::MAX), Some(u64::MAX));
    t.observe(u64::MAX, 0);
    assert_eq!(t.gap_samples(), u64::MAX);
    t.observe(0, 0);
    assert_eq!(t.resets(), 1);
    assert_eq!(t.missing_before(0), None);
    assert!(!t.can_observe(1), "one more missing sample has no room");
    assert!(t.can_observe(0));
}

#[test]
fn the_end_of_a_packet_saturates() {
    let mut t = GapTracker::new();
    t.observe(u64::MAX - 1, 10);
    assert_eq!(t.observe(u64::MAX, 1), None);
    assert!(t.is_contiguous());
}

#[test]
fn unset_gauges_render_as_nan_not_zero() {
    let text = Metrics::new().render("channelizer");
    assert!(text.contains("channelizer_output_power_dbfs NaN"), "{text}");
    assert!(!text.contains("channelizer_output_power_dbfs 0"), "{text}");
}

#[test]
fn the_prefix_namespaces_each_service() {
    let m = Metrics::new();
    assert!(m
        .render("demod")
        .starts_with("# HELP demod_vita49_packets_received_total"));
    assert!(
        m.render("demod").contains("\ndemod_seq_gaps_total")
            || m.render("demod").contains("\ndemod_vita49_seq_gaps_total")
    );
}

#[test]
fn the_exposition_is_written_line_by_line() {
    let mut m = Metrics::default();
    m.record_gap(7);
    let text = m.render("x");
    let lines: Vec<&str> = text.lines().collect();
    assert_eq!(lines.len(), 27);
    assert_eq!(lines[6], "# HELP x_vita49_seq_gaps_total Forward discontinuities detected in the upstream sample counter");
    assert_eq!(lines[7], "# TYPE x_vita49_seq_gaps_total counter");
    assert_eq!(lines[8], "x_vita49_seq_gaps_total 1");
    assert_eq!(lines[11], "x_vita49_gap_samples_total 7");
    assert_eq!(lines[25], "# TYPE x_peak_offset_hz gauge");
    assert_eq!(lines[26], "x_peak_offset_hz NaN");
}

#[test]
fn counters_wrap_around() {
    let mut m = Metrics::new();
    m.record_packets_dropped(u64::MAX);
    m.record_packets_dropped(3);
    assert_eq!(m.packets_dropped(), 2);
    m.record_samples(5, 6);
    assert_eq!((m.samples_in(), m.samples_out()), (5, 6));
    assert_eq!(m.packets_received(), 0);
    assert_eq!((m.seq_gaps(), m.gap_samples()), (0, 0));
    assert!(f32::from_bits(m.input_power_dbfs().bits).is_nan());
    assert!(f32::from_bits(m.output_power_dbfs().bits).is_nan());
    assert!(f32::from_bits(m.peak_offset_hz().bits).is_nan());
}

#[test]
fn requests_are_answered_by_path() {
    let mut m = Metrics::new();
    m.record_packet_received();
    let ok = respond("GET /metrics HTTP/1.1\r\nHost: x\r\n\r\n", "channelizer", &m);
    assert!(ok.starts_with("HTTP/1.1 200 OK\r\nContent-Type: text/plain; version=0.0.4; charset=utf-8\r\n"));
    assert!(ok.contains("channelizer_vita49_packets_received_total 1"));
    let body = m.render("channelizer");
    assert!(ok.contains(&format!("Content-Length: {}\r\n", body.len())));
    assert!(ok.ends_with(&body));

    let health = respond("GET /healthz HTTP/1.1\r\n\r\n", "channelizer", &m);
    assert_eq!(
        health,
        "HTTP/1.1 200 OK\r\nContent-Type: text/plain; charset=utf-8\r\nContent-Length: 3\r\nConnection: close\r\n\r\nok\n"
    );
    let missing = respond("GET /nope HTTP/1.1\r\n\r\n", "channelizer", &m);
    assert_eq!(
        missing,
        "HTTP/1.1 404 Not Found\r\nContent-Type: text/plain; charset=utf-8\r\nContent-Length: 10\r\nConnection: close\r\n\r\nnot found\n"
    );
}

#[test]
fn the_path_is_the_second_word() {
    for request in ["", "GET", "  GET  ", "GET /x HTTP/1.1", "\tGET\u{2003}/y\u{a0}z", "a\u{85}b c"] {
        let want = request.split_whitespace().nth(1).unwrap_or("/");
        assert_eq!(request_path(request), want, "{request:?}");
    }
}

#[test]
fn content_length_counts_bytes() {
    let m = Metrics::new();
    let answer = respond("GET /metrics", "caf\u{e9}", &m);
    let body = m.render("caf\u{e9}");
    assert!(answer.contains(&format!("Content-Length: {}\r\n", body.len())));
    assert!(body.len() > body.chars().count());
}

#[test]
fn backpressure_drops_are_counted_and_reported_periodically() {
    let mut fwd: Vita49Forwarder<u32> = Vita49Forwarder::new("127.0.0.1", 4820, Some(1), 0);
    assert_eq!(fwd.send_dropped(), 0);

    let reports = (1..SEND_DROP_WARN_INTERVAL)
        .filter(|_| fwd.record_send_drop().is_some())
        .count();
    assert_eq!(reports, 0, "must not warn before the interval is reached");
    assert_eq!(fwd.send_dropped(), SEND_DROP_WARN_INTERVAL - 1);

    assert_eq!(
        fwd.record_send_drop(),
        Some(SEND_DROP_WARN_INTERVAL),
        "interval-th drop reports its window size"
    );
    assert_eq!(fwd.send_dropped(), SEND_DROP_WARN_INTERVAL);
    assert_eq!(
        fwd.send_dropped_since_warn(), 0,
        "since-last-report counter resets so the next window is independent"
    );

    assert_eq!(fwd.record_send_drop(), None, "next window starts fresh");
    assert_eq!(fwd.send_dropped(), SEND_DROP_WARN_INTERVAL + 1);
}

#[test]
fn an_unresolved_destination_drops_and_retries() {
    let mut fwd: Vita49Forwarder<u32> = Vita49Forwarder::new("waterfall", 4820, None, 5);
    assert_eq!(fwd.dest(), "waterfall:4820");
    for n in 1..=DROP_WARN_INTERVAL {
        match fwd.send(6) {
            ForwardAction::Drop(warn) => {
                let want = if n == DROP_WARN_INTERVAL { Some(n) } else { None };
                assert_eq!(warn, want);
            }
            other => panic!("{other:?}"),
        }
    }
    assert_eq!(fwd.dropped_packets(), DROP_WARN_INTERVAL);
    assert!(matches!(fwd.send(5 + RESOLVE_RETRY_INTERVAL - 1), ForwardAction::Drop(None)));
    let due = 5 + RESOLVE_RETRY_INTERVAL;
    assert!(matches!(fwd.send(due), ForwardAction::Resolve));
    assert!(matches!(fwd.resolution(None), ForwardAction::Drop(None)));
    assert!(matches!(fwd.send(due + 1), ForwardAction::Drop(None)), "the attempt was noted");
    assert!(matches!(fwd.send(due + RESOLVE_RETRY_INTERVAL), ForwardAction::Resolve));
    assert!(matches!(fwd.resolution(Some(9)), ForwardAction::Transmit(9)));
    assert_eq!(fwd.transmitted(SendOutcome::Sent(20), 20), SendReport::Complete);
    assert!(matches!(fwd.send(due + 1), ForwardAction::Transmit(9)));
    assert_eq!(fwd.transmitted(SendOutcome::Sent(19), 20), SendReport::Partial);
    assert_eq!(fwd.transmitted(SendOutcome::Failed, 20), SendReport::Error);
    let before = fwd.dropped_packets();
    assert_eq!(fwd.transmitted(SendOutcome::WouldBlock, 20), SendReport::Backpressure(None));
    assert_eq!(fwd.dropped_packets(), before + 1);
    assert!(fwd.has_room());
    assert_eq!(fwd.packet_count() as u64, DROP_WARN_INTERVAL + 5);
}

#[test]
fn fields_are_framed_and_read_back() {
    let samples: Vec<i16> = vec![1, -2, i16::MAX, i16::MIN, 0, -1];
    let pkt = frame(&samples, 7, 0x0102_0304_0506_0708);
    assert_eq!(pkt.len(), HEADER_BYTES + 12);
    assert_eq!(pkt[0..4], [0x10, 0xD0, 0x00, 0x07]);
    assert_eq!(pkt[12..20], [1, 2, 3, 4, 5, 6, 7, 8]);
    let p = parse(&pkt).expect("parses");
    assert_eq!((p.packet_type, p.stream_id, p.ts_int, p.tsf), (1, 0, 7, 1));
    assert_eq!(p.ts_frac, 0x0102_0304_0506_0708);
    assert_eq!(p.samples(), 3);
    assert_eq!(p.iq_i16(), samples);
}

#[test]
fn the_size_field_holds_at_most_65531_samples() {
    let largest = frame(&vec![0i16; 2 * 65531], 0, 0);
    assert!(parse(&largest).is_ok());
    let beyond = frame(&vec![0i16; 2 * 65532], 0, 0);
    assert_eq!(
        parse(&beyond),
        Err(ParseError::LengthMismatch { declared: 4, actual: beyond.len() })
    );
}

#[test]
fn a_rounded_up_fraction_is_carried() {
    assert_eq!(timestamp_fields(r64(12.0), r64(2_000_000.0), r64(2_000_000.0)), (13, 0));
    assert_eq!(timestamp_fields(r64(12.0), r64(1_999_999.0), r64(2_000_000.0)), (12, 1_999_999));
    assert_eq!(timestamp_fields(r64(12.0), r64(95.999_999_999_999_99), r64(2_000_000.0)), (12, 96));
    assert_eq!(timestamp_fields(r64(12.0), r64(1_999_999.5), r64(2_000_000.0)), (13, 0), "rounded up and carried");
    assert_eq!(timestamp_fields(r64(4_294_967_295.0), r64(10.0), r64(10.0)), (0, 0), "seconds wrap");
    assert_eq!(timestamp_fields(r64(-1.0), r64(5.0), r64(0.5)), (0, 5), "no carry below one sample per second");
}

#[test]
fn parse_errors_say_what_is_wrong() {
    assert_eq!(
        ParseError::TooShort { got: 8 }.message(),
        "packet shorter than the 20-byte header (8)"
    );
    assert_eq!(
        ParseError::LengthMismatch { declared: 84, actual: 85 }.message(),
        "header declares 84 bytes but 85 are present"
    );
    assert_eq!(ParseError::UnsupportedPacketType(0xB).message(), "unsupported packet type 0xb");
    assert_eq!(ParseError::Trailerized.message(), "trailerized packets are not supported");
}

#[test]
fn the_first_fault_of_a_buffer_is_the_one_reported() {
    let mut pkt = frame(&[1, 2], 0, 0);
    pkt[0] = 0x41;
    pkt.push(0);
    assert_eq!(parse(&pkt), Err(ParseError::UnsupportedPacketType(4)));
    pkt[0] = 0x11;
    assert_eq!(parse(&pkt), Err(ParseError::Trailerized));
    pkt[0] = 0x10;
    assert_eq!(parse(&pkt), Err(ParseError::LengthMismatch { declared: 24, actual: 25 }));
    assert_eq!(parse(&[]), Err(ParseError::TooShort { got: 0 }));
}

#[test]
fn a_cursor_reports_a_tail_once_and_stops() {
    let mut file = frame(&[1, 2], 0, 0);
    let second = frame(&[3, 4, 5, 6], 0, 1);
    file.extend_from_slice(&second);
    file.extend_from_slice(&second[..24]);
    let mut cursor = PacketCursor::new(&file);
    assert!(!cursor.is_exhausted());
    assert_eq!(cursor.next_slice().expect("first").expect("framed").len(), 24);
    assert_eq!(cursor.next_slice().expect("second").expect("framed"), &second[..]);
    assert_eq!(
        cursor.next_slice().expect("tail"),
        Err(ParseError::LengthMismatch { declared: 28, actual: 24 })
    );
    assert!(cursor.is_exhausted());
    assert!(cursor.next_slice().is_none());
    assert!(cursor.next_packet().is_none());
}

#[test]
fn integers_survive_their_encoding() {
    let mut out: Vec<u8> = Vec::new();
    push_u32(&mut out, 0x8001_FF00);
    push_u64(&mut out, u64::MAX - 1);
    push_i16(&mut out, -2);
    assert_eq!(out, [0x80, 0x01, 0xFF, 0x00, 255, 255, 255, 255, 255, 255, 255, 254, 0xFF, 0xFE]);
    assert_eq!(read_u32(&out, 0), 0x8001_FF00);
    assert_eq!(read_u64(&out, 4), u64::MAX - 1);
    assert_eq!(read_i16(&out, 12), -2);
}

#[test]
fn numbers_are_written_out() {
    for n in [0u64, 9, 10, 255, 4096, u64::MAX] {
        let mut s = String::new();
        push_decimal(&mut s, n);
        s.push('/');
        push_hex(&mut s, n);
        assert_eq!(s, format!("{n}/{n:x}"));
    }
}

#[test]
fn comparisons_agree_with_the_machine() {
    let values = [
        f64::NEG_INFINITY, -1e300, -1.0, -f64::MIN_POSITIVE, -0.0, 0.0, 5e-324, 1.0, 1.5, 1e300,
        f64::INFINITY, f64::NAN,
    ];
    for a in values {
        assert_eq!(r64(a).is_nan(), a.is_nan());
        assert_eq!(r64(a).is_finite(), a.is_finite());
        assert_eq!(r64(a).abs().bits, a.abs().to_bits());
        assert_eq!(r64(a).negated().bits, (-a).to_bits());
        for b in values {
            assert_eq!(r64(a).lt(r64(b)), a < b, "{a} < {b}");
            assert_eq!(r64(a).le(r64(b)), a <= b, "{a} <= {b}");
        }
    }
    assert_eq!(r64(3.0).clamp(r64(0.0), r64(1.0)), r64(1.0));
    assert_eq!(r64(-3.0).clamp(r64(0.0), r64(1.0)), r64(0.0));
    assert_eq!(r64(0.25).clamp(r64(0.0), r64(1.0)), r64(0.25));
}

#[test]
fn casts_agree_with_the_machine() {
    let values = [
        0.0, -0.0, 0.999, 1.0, 1.5, 2.9e9, 4_294_967_295.0, 4_294_967_296.0, 9.3e18, 1.9e19, 1e300,
        -0.5, -1.0, -3.7, -1e300, -9.3e18, 5e-324, f64::INFINITY, f64::NEG_INFINITY, f64::NAN,
        9_007_199_254_740_993.0, 0.5, 2.5, -2.5, 0.499_999_999_999_999_94, 4_503_599_627_370_495.5, 95.999_999_9,
        -95.5,
    ];
    for v in values {
        assert_eq!(r64(v).as_u64(), v as u64, "{v}");
        assert_eq!(r64(v).as_u32(), v as u32, "{v}");
        assert_eq!(r64(v).as_usize(), v as usize, "{v}");
        assert_eq!(r64(v).round_u64(), v.round() as u64, "{v}");
        assert_eq!(r64(v).round_usize(), v.round() as usize, "{v}");
        assert_eq!(r64(v).round_i64(), v.round() as i64, "{v}");
        assert_eq!(r64(v).max(r64(1.0)), r64(v.max(1.0)), "{v}");
    }
    for v in [0.0f32, 1e-40, 1.0, f32::INFINITY] {
        assert_eq!(r32(v).is_positive(), v > 0.0);
        assert_eq!(r32(-v).is_positive(), -v > 0.0);
        assert_eq!(r32(v).is_finite(), v.is_finite());
    }
    assert!(!r32(f32::NAN).is_positive());
}

fn config(center: f64, rate: f64, bandwidth: f64, port: u16) -> Config {
    Config {
        device: DeviceConfig { device_args: String::new() },
        rf: RfConfig {
            center_freq: r64(center),
            sample_rate: r64(rate),
            rx_gain: r64(30.0),
            antenna: default_antenna(),
            bandwidth: r64(bandwidth),
        },
        forwarding: ForwardingConfig { vita49_dest_host: "waterfall".to_string(), vita49_dest_port: port },
        channel: None,
    }
}

#[test]
fn configurations_are_held_to_the_rules_in_order() {
    assert_eq!(default_antenna(), "RX2");
    assert_eq!(config(9e8, 2e6, 2e6, 4820).validate(), Ok(()));
    assert_eq!(config(0.0, 0.0, 0.0, 0).validate(), Err(ConfigError::CenterFreq(r64(0.0))));
    assert_eq!(config(9e8, -1.0, 0.0, 0).validate(), Err(ConfigError::SampleRate(r64(-1.0))));
    assert_eq!(config(9e8, 2e6, -0.0, 0).validate(), Err(ConfigError::Bandwidth(r64(-0.0))));
    assert_eq!(config(9e8, 2e6, 2e6, 0).validate(), Err(ConfigError::DestPort));
    // NaN is not positive.
    assert_eq!(config(f64::NAN, 2e6, 2e6, 1).validate(), Err(ConfigError::CenterFreq(r64(f64::NAN))));
    assert_eq!(config(9e8, f64::NAN, 2e6, 1).validate(), Err(ConfigError::SampleRate(r64(f64::NAN))));
    assert_eq!(config(9e8, 2e6, f64::NAN, 1).validate(), Err(ConfigError::Bandwidth(r64(f64::NAN))));
}

#[test]
fn a_read_is_interleaved_and_stamped() {
    let buf = vec![(1i16, 2i16); SAMPLES_PER_READ];
    assert!(batch(&buf, 0, Some(r64(1.0))).is_none());
    let (ts, samples) = batch(&buf, 3, Some(r64(1.25))).expect("samples");
    assert_eq!(ts, r64(1.25));
    assert_eq!(samples, [1, 2, 1, 2, 1, 2]);
    let (ts, samples) = batch(&buf, SAMPLES_PER_READ + 1, None).expect("samples");
    assert_eq!(ts, r64(0.0));
    assert_eq!(samples.len(), 2 * SAMPLES_PER_READ);
}

#[test]
fn stream_identifiers_wrap_around() {
    assert_eq!(stream_id(r64(915_000_000.5)), 915_000_000u32.wrapping_mul(1000));
    assert_eq!(stream_id(r64(3.9)), 3000);
    assert_eq!(stream_id(r64(-5.0)), 0);
}

#[test]
fn the_input_mode_that_is_asked_for_wins() {
    assert_eq!(choose_mode(Some(InputMode::Udp), "replay"), Some(InputMode::Udp));
    assert_eq!(choose_mode(None, "udp"), Some(InputMode::Udp));
    assert_eq!(choose_mode(None, "replay"), Some(InputMode::Replay));
    assert_eq!(choose_mode(None, "UDP"), None);
}

#[test]
fn limits_of_zero_and_less_are_off() {
    assert!(is_enabled(r64(0.1)));
    assert!(!is_enabled(r64(0.0)));
    assert!(!is_enabled(r64(-1.0)));
    assert!(!is_enabled(r64(f64::NAN)));
}

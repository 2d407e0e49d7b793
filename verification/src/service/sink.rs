//! The verification consumer: receive narrowband packets, and judge the stream.

use vstd::prelude::*;
use crate::dsp::fft::FftMath;
use crate::dsp::gaps::GapTracker;
#[allow(unused_imports)]
use crate::dsp::decimator::are_samples_of;
#[allow(unused_imports)]
use crate::dsp::gaps::Continuity;
use crate::dsp::iq::{power_dbfs, sc16_to_iq, Iq, LevelMath};
#[allow(unused_imports)]
use crate::dsp::iq::{is_envelope, is_power_dbfs};
use crate::dsp::tone::{envelope_tone_hz, ToneMath};
#[allow(unused_imports)]
use crate::dsp::tone::is_estimate;
use crate::ieee::{Real32, Real64};
use crate::vita49::packet::{parse, ParseError, TimestampMath};
#[allow(unused_imports)]
use crate::vita49::packet::{components, counter_value, has_fields_of, packet_fault, seconds_gives, Packet};
use super::channelizer::CounterOverflow;

verus! {

/// Lowest modulation tone that is looked for: 50 Hz.
pub const LOWEST_TONE_BITS: u64 = 0x4049_0000_0000_0000;

/// Floating-point arithmetic of the verdict.
pub trait VerdictMath {
    /// `0.1 * rate`.
    fn highest_tone(&self, rate: Real64) -> Real64;

    /// `got - want`.
    fn tone_error(&self, got: Real64, want: Real64) -> Real64;
}

/// Whether a limit in seconds is in force: zero and less mean "no limit".
pub fn is_enabled(seconds: Real64) -> (r: bool)
    ensures
        r == (Real64 { bits: 0 }).less(seconds),
{
    (Real64 { bits: 0 }).lt(seconds)
}

/// What is expected of a stream. Times are in nanoseconds.
#[derive(Debug, Clone, Copy, PartialEq, Eq, Structural)]
pub struct SinkConfig {
    /// Sample rate to decode with.
    pub expect_rate: Real64,
    /// Modulation tone that must be found, if any.
    pub expect_tone: Option<Real64>,
    /// Largest tone error that is accepted.
    pub tone_tolerance: Real64,
    /// Most samples kept for the measurement.
    pub max_measure_samples: usize,
    /// When to give up.
    pub deadline: Option<u64>,
    /// How long a stream may fall silent, once it has begun.
    pub idle_limit: Option<u64>,
    /// How often to report while waiting.
    pub report_interval: Option<u64>,
}

/// What to do while no packet arrives.
#[derive(Debug, Clone, Copy, PartialEq, Eq, Structural)]
pub enum IdleAction {
    /// Stop: the stream has fallen silent.
    FinishIdle,
    /// Stop: the time is up.
    FinishDeadline,
    /// Report how things stand.
    Report,
    /// Wait on.
    Wait,
}

/// What the consumer found.
#[derive(Debug, Clone, Copy, PartialEq, Eq, Structural)]
pub struct Verdict {
    /// Packets came, all of them parsed, none is missing, and the tone is right.
    pub ok: bool,
    /// Packets received.
    pub packets: u64,
    /// Samples received.
    pub samples: u64,
    /// Packets that did not parse.
    pub malformed: u64,
    /// Sample rate decoded with.
    pub rate_hz: Real64,
    /// Forward discontinuities.
    pub seq_gaps: u64,
    /// Samples lost to them.
    pub gap_samples: u64,
    /// Times the counter went backwards.
    pub resets: u64,
    /// Modulation tone found.
    pub decoded_hz: Option<Real64>,
    /// Modulation tone expected.
    pub expected_tone_hz: Option<Real64>,
    /// Difference of the two.
    pub tone_error_hz: Option<Real64>,
    /// Largest difference that is accepted.
    pub tone_tolerance_hz: Real64,
    /// Level of the stream.
    pub power_dbfs: Option<Real32>,
}

/// The state of a consumer.
#[verifier::ext_equal]
pub struct SinkState {
    /// What is expected.
    pub cfg: SinkConfig,
    /// Packets received.
    pub packets: int,
    /// Samples received.
    pub samples: int,
    /// Packets that did not parse.
    pub malformed: int,
    /// When the last packet came.
    pub last_packet_at: Option<u64>,
    /// Continuity of the stream.
    pub gaps: Continuity,
    /// The most recent samples.
    pub measure: Seq<Iq>,
    /// When the last report was due.
    pub last_report: u64,
}

/// The last `n` of `xs`.
pub open spec fn most_recent(xs: Seq<Iq>, n: nat) -> Seq<Iq> {
    if xs.len() > n {
        xs.skip(xs.len() - n)
    } else {
        xs
    }
}

impl SinkState {
    /// All counters fit after a packet of `n` samples starting at `counter`.
    pub open spec fn has_room(self, counter: int, n: int) -> bool {
        &&& counter <= u64::MAX
        &&& self.packets < u64::MAX
        &&& self.samples + n <= u64::MAX
        &&& self.gaps.after(counter as u64, n as u64).countable()
    }

    /// The state after a packet with samples `iq`, starting at `counter`, at time
    /// `now`.
    pub open spec fn after(self, counter: u64, iq: Seq<Iq>, now: u64) -> SinkState {
        SinkState {
            packets: self.packets + 1,
            samples: self.samples + iq.len(),
            last_packet_at: Some(now),
            gaps: self.gaps.after(counter, iq.len() as u64),
            measure: most_recent(self.measure + iq, self.cfg.max_measure_samples as nat),
            ..self
        }
    }

    /// The stream has fallen silent for too long.
    pub open spec fn silent(self, now: u64) -> bool {
        &&& self.last_packet_at matches Some(last)
        &&& self.cfg.idle_limit matches Some(limit)
        &&& now - last >= limit || (limit == 0)
    }

    /// What to do at time `now` while no packet arrives.
    pub open spec fn idle_action(self, now: u64) -> IdleAction {
        if self.silent(now) {
            IdleAction::FinishIdle
        } else if self.cfg.deadline matches Some(deadline) && now >= deadline {
            IdleAction::FinishDeadline
        } else if self.cfg.report_interval matches Some(interval) && (now - self.last_report
            >= interval || interval == 0) {
            IdleAction::Report
        } else {
            IdleAction::Wait
        }
    }
}

/// A packet takes `s` to `t` with result `r`.
pub open spec fn sink_takes<M: TimestampMath>(
    m: M,
    s: SinkState,
    p: Packet,
    scaled: Real64,
    now: u64,
    r: Result<Option<ParseError>, CounterOverflow>,
    t: SinkState,
) -> bool {
    let counter = counter_value(scaled, p.ts_frac);
    let n = (p.payload@.len() / 4) as int;
    match r {
        Ok(fault) => {
            &&& fault is None
            &&& s.has_room(counter, n)
            &&& exists|iq: Seq<Iq>| #[trigger]
                are_samples_of(iq, components(p.payload@)) && t == s.after(counter as u64, iq, now)
        },
        Err(_) => !s.has_room(counter, n) && t == s,
    }
}

/// The datagram `buf` takes `s` to `t` with result `r`: one that is no packet is
/// counted and its fault handed back.
pub open spec fn sink_digests<M: TimestampMath>(
    m: M,
    s: SinkState,
    buf: Seq<u8>,
    now: u64,
    r: Result<Option<ParseError>, CounterOverflow>,
    t: SinkState,
) -> bool {
    match packet_fault(buf) {
        Some(e) => match r {
            Ok(fault) => {
                &&& fault == Some(e)
                &&& s.malformed < u64::MAX
                &&& t == (SinkState { malformed: s.malformed + 1, ..s })
            },
            Err(_) => s.malformed == u64::MAX && t == s,
        },
        None => exists|p: Packet, scaled: Real64| #[trigger]
            sink_takes(m, s, p, scaled, now, r, t) && has_fields_of(p, buf) && seconds_gives(
                m,
                p.ts_int,
                s.cfg.expect_rate,
                scaled,
            ),
    }
}

/// `tone` is the modulation tone of the collected samples.
pub open spec fn is_decoded<M: VerdictMath + ToneMath + FftMath + LevelMath>(
    m: M,
    s: SinkState,
    tone: Option<Real64>,
) -> bool {
    if s.measure.len() == 0 {
        tone is None
    } else {
        exists|env: Seq<Iq>, highest: Real64|
            #![trigger is_envelope(m, s.measure, env), call_ensures(M::highest_tone, (&m, s.cfg.expect_rate), highest)]
            is_envelope(m, s.measure, env) && call_ensures(
                M::highest_tone,
                (&m, s.cfg.expect_rate),
                highest,
            ) && is_estimate(
                m,
                env,
                false,
                s.cfg.expect_rate,
                Real64 { bits: LOWEST_TONE_BITS },
                highest,
                tone,
            )
    }
}

/// `err` is the error of the tone that was found, where one was expected and one
/// was found.
pub open spec fn is_tone_error<M: VerdictMath>(
    m: M,
    found: Option<Real64>,
    expected: Option<Real64>,
    err: Option<Real64>,
) -> bool {
    match (found, expected) {
        (Some(got), Some(want)) => err matches Some(e) && call_ensures(
            M::tone_error,
            (&m, got, want),
            e,
        ),
        _ => err is None,
    }
}

/// The tone is right: within the tolerance where it could be judged, and not
/// asked for otherwise.
pub open spec fn tone_passes(cfg: SinkConfig, err: Option<Real64>) -> bool {
    match err {
        Some(e) => e.absolute().at_most(cfg.tone_tolerance),
        None => cfg.expect_tone is None,
    }
}

/// `p` is the level of the collected samples, where it is a finite number.
pub open spec fn is_level<M: LevelMath>(m: M, s: SinkState, p: Option<Real32>) -> bool {
    exists|db: Real32| #[trigger]
        is_power_dbfs(m, s.measure, db) && p == if db.finite() {
            Some(db)
        } else {
            None
        }
}

/// `v` is the verdict on state `s`.
pub open spec fn is_verdict<M: VerdictMath + ToneMath + FftMath + LevelMath>(
    m: M,
    s: SinkState,
    v: Verdict,
) -> bool {
    &&& v.ok == (s.packets > 0 && s.malformed == 0 && s.gaps.gaps == 0 && tone_passes(
        s.cfg,
        v.tone_error_hz,
    ))
    &&& v.packets == s.packets
    &&& v.samples == s.samples
    &&& v.malformed == s.malformed
    &&& v.rate_hz == s.cfg.expect_rate
    &&& v.seq_gaps == s.gaps.gaps
    &&& v.gap_samples == s.gaps.gap_samples
    &&& v.resets == s.gaps.resets
    &&& is_decoded(m, s, v.decoded_hz)
    &&& v.expected_tone_hz == s.cfg.expect_tone
    &&& is_tone_error(m, v.decoded_hz, s.cfg.expect_tone, v.tone_error_hz)
    &&& v.tone_tolerance_hz == s.cfg.tone_tolerance
    &&& is_level(m, s, v.power_dbfs)
}

/// The verification consumer.
pub struct VerificationSink {
    cfg: SinkConfig,
    packets: u64,
    samples: u64,
    malformed: u64,
    last_packet_at: Option<u64>,
    tracker: GapTracker,
    measure: Vec<Iq>,
    last_report: u64,
}

impl VerificationSink {
    /// The state that contracts speak of.
    pub closed spec fn state(&self) -> SinkState {
        SinkState {
            cfg: self.cfg,
            packets: self.packets as int,
            samples: self.samples as int,
            malformed: self.malformed as int,
            last_packet_at: self.last_packet_at,
            gaps: self.tracker.state(),
            measure: self.measure@,
            last_report: self.last_report,
        }
    }

    /// A consumer that starts to wait at `now`.
    pub fn new(cfg: SinkConfig, now: u64) -> (s: Self)
        ensures
            s.state() == (SinkState {
                cfg,
                packets: 0,
                samples: 0,
                malformed: 0,
                last_packet_at: None,
                gaps: Continuity::start(),
                measure: Seq::empty(),
                last_report: now,
            }),
    {
        VerificationSink {
            cfg,
            packets: 0,
            samples: 0,
            malformed: 0,
            last_packet_at: None,
            tracker: GapTracker::new(),
            measure: Vec::new(),
            last_report: now,
        }
    }

    /// Take in one datagram that came at `now`. A datagram that is no packet is
    /// counted, and its fault handed back.
    ///
    /// Fails, changing nothing, when a counter would no longer fit.
    pub fn on_datagram<M: TimestampMath>(&mut self, buf: &[u8], now: u64, m: &M) -> (r: Result<
        Option<ParseError>,
        CounterOverflow,
    >)
        ensures
            sink_digests(*m, old(self).state(), buf@, now, r, final(self).state()),
    {
        let ghost s = self.state();
        let packet = match parse(buf) {
            Ok(p) => p,
            Err(e) => {
                if self.malformed == u64::MAX {
                    return Err(CounterOverflow);
                }
                self.malformed = self.malformed + 1;
                return Ok(Some(e));
            },
        };
        let n: u64 = packet.samples() as u64;
        let scaled = m.seconds_in_samples(packet.ts_int, self.cfg.expect_rate);
        assert(seconds_gives(*m, packet.ts_int, s.cfg.expect_rate, scaled));
        let counter: u64 = match packet.sample_counter_from(scaled) {
            Some(c) => c,
            None => {
                let r = Err(CounterOverflow);
                assert(sink_takes(*m, s, packet, scaled, now, r, self.state()));
                return r;
            },
        };
        if self.packets == u64::MAX || n > u64::MAX - self.samples || !self.tracker.can_observe(counter) {
            let r = Err(CounterOverflow);
            assert(!s.gaps.after(counter, n).countable() || s.packets == u64::MAX || s.samples + n
                > u64::MAX);
            assert(sink_takes(*m, s, packet, scaled, now, r, self.state()));
            return r;
        }
        assert(s.gaps.after(counter, n).countable());
        self.packets = self.packets + 1;
        self.samples = self.samples + n;
        self.tracker.observe(counter, n);
        let interleaved = packet.iq_i16();
        let iq = sc16_to_iq(interleaved.as_slice());
        self.measure.extend_from_slice(iq.as_slice());
        assert(self.measure@ =~= s.measure + iq@);
        // Most recent wins: an early block would sit in the filter transient.
        if self.measure.len() > self.cfg.max_measure_samples {
            let excess: usize = self.measure.len() - self.cfg.max_measure_samples;
            let recent = self.measure.split_off(excess);
            assert(recent@ =~= (s.measure + iq@).skip(excess as int));
            self.measure = recent;
        }
        self.last_packet_at = Some(now);
        proof {
            assert(are_samples_of(iq@, components(packet.payload@)));
            assert(self.state() =~= s.after(counter, iq@, now));
            assert(sink_takes(*m, s, packet, scaled, now, Ok(None), self.state()));
        }
        Ok(None)
    }

    /// Record a packet that could not be placed in the stream.
    pub fn note_malformed(&mut self)
        requires
            old(self).state().malformed < u64::MAX,
        ensures
            final(self).state() == (SinkState {
                malformed: old(self).state().malformed + 1,
                ..old(self).state()
            }),
    {
        self.malformed = self.malformed + 1;
    }

    /// Decide what to do at `now` while no packet arrives.
    pub fn on_idle(&mut self, now: u64) -> (a: IdleAction)
        ensures
            a == old(self).state().idle_action(now),
            final(self).state() == if a == IdleAction::Report {
                SinkState { last_report: now, ..old(self).state() }
            } else {
                old(self).state()
            },
    {
        if let Some(last) = self.last_packet_at {
            if let Some(limit) = self.cfg.idle_limit {
                if now.saturating_sub(last) >= limit {
                    return IdleAction::FinishIdle;
                }
            }
        }
        if let Some(deadline) = self.cfg.deadline {
            if now >= deadline {
                return IdleAction::FinishDeadline;
            }
        }
        if let Some(interval) = self.cfg.report_interval {
            if now.saturating_sub(self.last_report) >= interval {
                self.last_report = now;
                return IdleAction::Report;
            }
        }
        IdleAction::Wait
    }

    /// Packets, samples and malformed packets so far.
    pub fn counts(&self) -> (c: (u64, u64, u64))
        ensures
            c.0 == self.state().packets,
            c.1 == self.state().samples,
            c.2 == self.state().malformed,
    {
        (self.packets, self.samples, self.malformed)
    }

    /// Samples kept for the measurement.
    pub fn measured(&self) -> (n: usize)
        ensures
            n == self.state().measure.len(),
    {
        self.measure.len()
    }

    /// Continuity of the stream so far.
    pub fn continuity(&self) -> (t: &GapTracker)
        ensures
            t.state() == self.state().gaps,
    {
        &self.tracker
    }

    /// Judge what has been received. The length bound is one that every
    /// collection of samples in memory meets.
    pub fn verdict<M: VerdictMath + ToneMath + FftMath + LevelMath>(&self, m: &M) -> (v: Verdict)
        requires
            8 * self.state().measure.len() <= usize::MAX,
        ensures
            is_verdict(*m, self.state(), v),
    {
        let decoded_hz: Option<Real64> = if self.measure.len() == 0 {
            None
        } else {
            let highest = m.highest_tone(self.cfg.expect_rate);
            assert(call_ensures(M::highest_tone, (m, self.cfg.expect_rate), highest));
            envelope_tone_hz(
                self.measure.as_slice(),
                self.cfg.expect_rate,
                Real64 { bits: LOWEST_TONE_BITS },
                highest,
                m,
            )
        };
        let db = power_dbfs(self.measure.as_slice(), m);
        assert(is_power_dbfs(*m, self.measure@, db));
        let tone_error_hz: Option<Real64> = match (decoded_hz, self.cfg.expect_tone) {
            (Some(got), Some(want)) => Some(m.tone_error(got, want)),
            _ => None,
        };
        let tone_ok: bool = match tone_error_hz {
            Some(e) => e.abs().le(self.cfg.tone_tolerance),
            None => self.cfg.expect_tone.is_none(),
        };
        Verdict {
            ok: self.packets > 0 && self.malformed == 0 && self.tracker.gaps() == 0 && tone_ok,
            packets: self.packets,
            samples: self.samples,
            malformed: self.malformed,
            rate_hz: self.cfg.expect_rate,
            seq_gaps: self.tracker.gaps(),
            gap_samples: self.tracker.gap_samples(),
            resets: self.tracker.resets(),
            decoded_hz,
            expected_tone_hz: self.cfg.expect_tone,
            tone_error_hz,
            tone_tolerance_hz: self.cfg.tone_tolerance,
            power_dbfs: if db.is_finite() {
                Some(db)
            } else {
                None
            },
        }
    }
}

/// A stream that never began is never given up as silent, and cannot pass.
pub proof fn an_empty_stream_never_passes<M: VerdictMath + ToneMath + FftMath + LevelMath>(
    m: M,
    s: SinkState,
    v: Verdict,
    now: u64,
)
    requires
        is_verdict(m, s, v),
        s.packets == 0,
        s.last_packet_at is None,
    ensures
        !v.ok,
        s.idle_action(now) != IdleAction::FinishIdle,
{
}

/// The samples that are kept are the most recent ones, and never more than were
/// asked for.
pub proof fn the_measured_block_is_the_most_recent(xs: Seq<Iq>, n: nat)
    ensures
        most_recent(xs, n).len() <= n,
        most_recent(xs, n).len() == n || most_recent(xs, n) == xs,
        xs == xs.take(xs.len() - most_recent(xs, n).len()) + most_recent(xs, n),
{
    let kept = most_recent(xs, n);
    assert(xs =~= xs.take(xs.len() - kept.len()) + kept);
}

} // verus!

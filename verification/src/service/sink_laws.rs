//! What the verification consumer promises, in terms of what was received.

use vstd::prelude::*;
#[allow(unused_imports)]
use crate::bytes::{be_u32, be_u64};
#[allow(unused_imports)]
use crate::dsp::decimator::are_samples_of;
use crate::dsp::fft::FftMath;
#[allow(unused_imports)]
use crate::dsp::iq::{is_envelope, is_power_dbfs, Iq, LevelMath};
#[allow(unused_imports)]
use crate::dsp::tone::{is_estimate, ToneMath};
use crate::ieee::{Real32, Real64};
#[allow(unused_imports)]
use crate::vita49::packet::{components, counter_value, has_fields_of, seconds_gives, Packet};
use crate::vita49::packet::{ParseError, TimestampMath};
use super::channelizer::CounterOverflow;
#[allow(unused_imports)]
use super::promises::missing_at;
#[allow(unused_imports)]
use crate::vita49::wire_laws::{exactly_one_packet_parses, is_one_packet};
use super::sink::{IdleAction, SinkState, Verdict, VerdictMath};
#[allow(unused_imports)]
use super::sink::{is_verdict, sink_digests, sink_takes};

verus! {

/// A stream passes exactly when packets came, all of them parsed, none is missing,
/// and the tone is right: within the tolerance to either side of the expected one,
/// where one was expected. A tone that was expected and not found does not pass.
pub proof fn a_tone_passes_within_the_tolerance_to_either_side<
    M: VerdictMath + ToneMath + FftMath + LevelMath,
>(m: M, s: SinkState, v: Verdict)
    requires
        is_verdict(m, s, v),
    ensures
        v.ok && s.cfg.expect_tone is Some ==> (v.tone_error_hz matches Some(e) && e.at_most(
            s.cfg.tone_tolerance,
        ) && e.negation().at_most(s.cfg.tone_tolerance)),
        v.ok ==> v.packets > 0 && v.malformed == 0 && v.seq_gaps == 0,
        v.packets > 0 && v.malformed == 0 && v.seq_gaps == 0 && s.cfg.expect_tone is None ==> v.ok,
        v.packets > 0 && v.malformed == 0 && v.seq_gaps == 0 && (v.tone_error_hz matches Some(e)
            && e.at_most(s.cfg.tone_tolerance) && e.negation().at_most(s.cfg.tone_tolerance)) ==> v.ok,
        s.cfg.expect_tone is Some && v.decoded_hz is None ==> !v.ok,
{
}

/// A verdict counts what was received: packets, samples, faults, gaps and resets
/// are those of the stream, and the error of the tone is what was found less what
/// was expected.
pub proof fn verdicts_count_what_was_received<M: VerdictMath + ToneMath + FftMath + LevelMath>(
    m: M,
    s: SinkState,
    v: Verdict,
)
    requires
        is_verdict(m, s, v),
    ensures
        v.packets == s.packets,
        v.samples == s.samples,
        v.malformed == s.malformed,
        v.seq_gaps == s.gaps.gaps,
        v.gap_samples == s.gaps.gap_samples,
        v.resets == s.gaps.resets,
        v.rate_hz == s.cfg.expect_rate,
        v.expected_tone_hz == s.cfg.expect_tone,
        v.tone_tolerance_hz == s.cfg.tone_tolerance,
        v.decoded_hz is Some && s.cfg.expect_tone is Some ==> v.tone_error_hz is Some && call_ensures(
            M::tone_error,
            (&m, v.decoded_hz.unwrap(), s.cfg.expect_tone.unwrap()),
            v.tone_error_hz.unwrap(),
        ),
        v.decoded_hz is None || s.cfg.expect_tone is None ==> v.tone_error_hz is None,
{
}

/// The tone that is decoded is the dominant one of the envelope of the samples that
/// were kept, its mean taken off, between 50 Hz and a tenth of the sample rate; of
/// no samples, none is. The level is that of the same samples, where it is finite.
pub proof fn the_tone_is_decoded_from_the_envelope<M: VerdictMath + ToneMath + FftMath + LevelMath>(
    m: M,
    s: SinkState,
    v: Verdict,
)
    requires
        is_verdict(m, s, v),
    ensures
        s.measure.len() == 0 ==> v.decoded_hz is None,
        s.measure.len() > 0 ==> exists|env: Seq<Iq>, highest: Real64|
            #![trigger is_envelope(m, s.measure, env), call_ensures(M::highest_tone, (&m, s.cfg.expect_rate), highest)]
            {
                &&& env.len() == s.measure.len()
                &&& forall|k: int|
                    0 <= k < env.len() ==> call_ensures(
                        M::magnitude,
                        (&m, s.measure[k]),
                        (#[trigger] env[k]).i,
                    ) && env[k].q.bits == 0
                &&& is_envelope(m, s.measure, env)
                &&& call_ensures(M::highest_tone, (&m, s.cfg.expect_rate), highest)
                &&& is_estimate(
                    m,
                    env,
                    false,
                    s.cfg.expect_rate,
                    Real64 { bits: 0x4049_0000_0000_0000 },
                    highest,
                    v.decoded_hz,
                )
            },
        exists|db: Real32| #[trigger]
            is_power_dbfs(m, s.measure, db) && (db.finite() ==> v.power_dbfs == Some(db)) && (
            !db.finite() ==> v.power_dbfs is None),
{
    if s.measure.len() > 0 {
        let (env, highest) = choose|env: Seq<Iq>, highest: Real64|
            #![trigger is_envelope(m, s.measure, env), call_ensures(M::highest_tone, (&m, s.cfg.expect_rate), highest)]
            is_envelope(m, s.measure, env) && call_ensures(
                M::highest_tone,
                (&m, s.cfg.expect_rate),
                highest,
            ) && is_estimate(
                m,
                env,
                false,
                s.cfg.expect_rate,
                Real64 { bits: super::sink::LOWEST_TONE_BITS },
                highest,
                v.decoded_hz,
            );
        assert forall|k: int| 0 <= k < env.len() implies call_ensures(
            M::magnitude,
            (&m, s.measure[k]),
            (#[trigger] env[k]).i,
        ) && env[k].q.bits == 0 by {
            assert(crate::dsp::iq::magnitude_gives(m, s.measure[k], env[k].i));
        }
    }
    let db = choose|db: Real32| #[trigger]
        is_power_dbfs(m, s.measure, db) && v.power_dbfs == if db.finite() {
            Some(db)
        } else {
            None
        };
    assert(is_power_dbfs(m, s.measure, db));
}

/// A packet is taken in whenever the counters have room for it, wherever it stands
/// in the stream: its samples are counted and, the most recent ones, kept; the time
/// is noted; a packet that is ahead counts as a gap and one that is behind as a
/// reset, and the stream goes on from its end.
///
/// `base` is what every reading of the packet's seconds comes to in samples.
pub proof fn packets_are_taken_in_wherever_they_stand<M: TimestampMath>(
    m: M,
    s: SinkState,
    buf: Seq<u8>,
    now: u64,
    base: int,
    r: Result<Option<ParseError>, CounterOverflow>,
    t: SinkState,
)
    requires
        sink_digests(m, s, buf, now, r, t),
        is_one_packet(buf),
        forall|scaled: Real64| #[trigger]
            call_ensures(
                M::seconds_in_samples,
                (&m, be_u32(buf, 8) as u32, s.cfg.expect_rate),
                scaled,
            ) ==> scaled.cast_unsigned(u64::MAX as nat) == base,
        ({
            let c = base + be_u64(buf, 12);
            let n = (buf.len() - 20) / 4;
            &&& c <= u64::MAX
            &&& s.packets + 1 <= u64::MAX
            &&& s.samples + n <= u64::MAX
            &&& s.gaps.gaps + 1 <= u64::MAX
            &&& s.gaps.gap_samples + missing_at(s.gaps.next_expected, c) <= u64::MAX
            &&& s.gaps.resets + 1 <= u64::MAX
        }),
    ensures
        ({
            let c = base + be_u64(buf, 12);
            let n = (buf.len() - 20) / 4;
            let missing = missing_at(s.gaps.next_expected, c);
            let back = s.gaps.next_expected matches Some(e) && c < e;
            &&& r == Ok::<Option<ParseError>, CounterOverflow>(None)
            &&& t.packets == s.packets + 1
            &&& t.samples == s.samples + n
            &&& t.malformed == s.malformed
            &&& t.last_packet_at == Some(now)
            &&& t.last_report == s.last_report
            &&& t.cfg == s.cfg
            &&& t.gaps.next_expected == Some(
                if c + n > u64::MAX {
                    u64::MAX
                } else {
                    (c + n) as u64
                },
            )
            &&& t.gaps.gaps == s.gaps.gaps + if missing > 0 {
                1int
            } else {
                0
            }
            &&& t.gaps.gap_samples == s.gaps.gap_samples + missing
            &&& t.gaps.resets == s.gaps.resets + if back {
                1int
            } else {
                0
            }
            &&& exists|iq: Seq<Iq>| #[trigger]
                are_samples_of(iq, components(buf.skip(20))) && {
                    let all = s.measure + iq;
                    let limit = s.cfg.max_measure_samples as int;
                    &&& iq.len() == n
                    &&& all.len() <= limit ==> t.measure == all
                    &&& all.len() > limit ==> t.measure == all.subrange(
                        all.len() - limit,
                        all.len() as int,
                    )
                }
        }),
{
    exactly_one_packet_parses(buf);
    let c = base + be_u64(buf, 12);
    let n = (buf.len() - 20) / 4;
    let (p, scaled) = choose|p: Packet, scaled: Real64| #[trigger]
        sink_takes(m, s, p, scaled, now, r, t) && has_fields_of(p, buf) && seconds_gives(
            m,
            p.ts_int,
            s.cfg.expect_rate,
            scaled,
        );
    assert(call_ensures(
        M::seconds_in_samples,
        (&m, be_u32(buf, 8) as u32, s.cfg.expect_rate),
        scaled,
    ));
    assert(counter_value(scaled, p.ts_frac) == c);
    assert(p.payload@.len() / 4 == n);
    assert(s.has_room(c, n));
    let iq = choose|iq: Seq<Iq>| #[trigger]
        are_samples_of(iq, components(p.payload@)) && t == s.after(c as u64, iq, now);
    assert(p.payload@ == buf.skip(20));
    let all = s.measure + iq;
    let limit = s.cfg.max_measure_samples as int;
    if all.len() > limit {
        assert(t.measure =~= all.subrange(all.len() - limit, all.len() as int));
    }
}

/// What is not one packet is counted, handed back, and otherwise changes nothing.
pub proof fn faults_are_counted_and_handed_back<M: TimestampMath>(
    m: M,
    s: SinkState,
    buf: Seq<u8>,
    now: u64,
    r: Result<Option<ParseError>, CounterOverflow>,
    t: SinkState,
)
    requires
        sink_digests(m, s, buf, now, r, t),
        !is_one_packet(buf),
        s.malformed < u64::MAX,
    ensures
        r matches Ok(Some(_)),
        t.malformed == s.malformed + 1,
        t == (SinkState { malformed: t.malformed, ..s }),
{
    exactly_one_packet_parses(buf);
}

/// While nothing arrives, the consumer finishes as soon as a stream that has begun
/// is silent for the limit, or else as soon as the time is up; otherwise it reports
/// once per interval, and waits. A limit that is not set never applies. Asked of
/// times that go forward.
pub proof fn waiting_ends_in_time(s: SinkState, now: u64)
    requires
        s.last_packet_at matches Some(last) ==> last <= now,
        s.last_report <= now,
    ensures
        ({
            let silent = match (s.last_packet_at, s.cfg.idle_limit) {
                (Some(last), Some(limit)) => last + limit <= now,
                _ => false,
            };
            let over = match s.cfg.deadline {
                Some(deadline) => deadline <= now,
                None => false,
            };
            let due = match s.cfg.report_interval {
                Some(interval) => s.last_report + interval <= now,
                None => false,
            };
            &&& s.idle_action(now) == IdleAction::FinishIdle <==> silent
            &&& s.idle_action(now) == IdleAction::FinishDeadline <==> !silent && over
            &&& s.idle_action(now) == IdleAction::Report <==> !silent && !over && due
            &&& s.idle_action(now) == IdleAction::Wait <==> !silent && !over && !due
        }),
{
}

} // verus!

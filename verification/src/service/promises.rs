//! What the service promises of each packet and of each measurement, in terms of
//! the bytes, counters and samples that are involved.

use vstd::prelude::*;
#[allow(unused_imports)]
use crate::bytes::{be_u32, be_u64};
#[allow(unused_imports)]
use crate::dsp::decimator::{period, position, position_is_below_period, settling_of};
#[allow(unused_imports)]
use crate::dsp::iq::{is_power_dbfs, quantized, Iq};
#[allow(unused_imports)]
use crate::dsp::plan::factor_product;
#[allow(unused_imports)]
use crate::dsp::tone::{is_estimate, is_reading, is_spectrum};
#[allow(unused_imports)]
use crate::dsp::tone_laws::{estimates_are_readings, readings_are_of_the_strongest_component, spectra_are_of_the_windowed_signal, tells_the_strongest};
use crate::ieee::{Real32, Real64};
#[allow(unused_imports)]
use crate::metrics::{gauge_text_gives, MetricsState};
#[allow(unused_imports)]
use crate::vita49::packet::{components, counter_value, has_fields_of, seconds_gives, Packet};
#[allow(unused_imports)]
use crate::vita49::wire_laws::{exactly_one_packet_parses, is_one_packet};
use super::channelizer::{ChainMath, CounterOverflow, GapRecord, PacketOutcome, Report, ServiceConfig, ServiceMath, ServiceState};
#[allow(unused_imports)]
use super::channelizer::{digests, emits, flushes, gap_record, is_output_packet, is_report, lemma_outputs_bounded};
#[allow(unused_imports)]
use super::channelizer::{measures, narrow_gives, observes, output_time_gives, processes, publishes, takes, takes_at};
#[allow(unused_imports)]
use super::laws::lemma_processed_position;
#[allow(unused_imports)]
use super::output::SentPacket;

verus! {

/// Samples missing before a packet at `counter`, where `expected` comes next.
pub open spec fn missing_at(expected: Option<u64>, counter: int) -> int {
    match expected {
        Some(e) => if counter > e {
            counter - e
        } else {
            0
        },
        None => 0,
    }
}

/// A packet is taken whenever the counters have room for it, wherever it stands in
/// the stream: behind what came before, ahead of it, or right after it. One that is
/// ahead leaves a gap, one that is behind restarts the stream and counts as a
/// reset, and the stream goes on from the end of this packet.
///
/// `base` is what every reading of the packet's seconds comes to in samples.
pub proof fn packets_are_taken_wherever_they_stand<M: ChainMath>(
    m: M,
    s: ServiceState,
    buf: Seq<u8>,
    base: int,
    r: Result<PacketOutcome, CounterOverflow>,
    t: ServiceState,
)
    requires
        digests(m, s, buf, r, t),
        is_one_packet(buf),
        forall|scaled: Real64| #[trigger]
            call_ensures(
                M::seconds_in_samples,
                (&m, be_u32(buf, 8) as u32, s.cfg.input_rate),
                scaled,
            ) ==> scaled.cast_unsigned(u64::MAX as nat) == base,
        s.chan.valid(),
        period(s.chan.stages) == factor_product(s.plan),
        ({
            let c = base + be_u64(buf, 12);
            let n = (buf.len() - 20) / 4;
            let d = factor_product(s.plan) as int;
            let missing = missing_at(s.gaps.next_expected, c);
            &&& c <= u64::MAX
            &&& s.samples_in + n <= u64::MAX
            &&& s.gaps.gaps + 1 <= u64::MAX
            &&& s.gaps.gap_samples + missing <= u64::MAX
            &&& s.gaps.resets + 1 <= u64::MAX
            &&& s.samples_out + (missing + d - 1) / d + n <= u64::MAX
        }),
    ensures
        ({
            let c = base + be_u64(buf, 12);
            let n = (buf.len() - 20) / 4;
            let d = factor_product(s.plan) as int;
            let missing = missing_at(s.gaps.next_expected, c);
            let hole = (missing + d - 1) / d;
            let back = s.gaps.next_expected matches Some(e) && c < e;
            &&& r matches Ok(o)
            &&& !o.malformed
            &&& o.samples_in == n
            &&& o.samples_out == (position(s.chan.stages) + n) / d
            &&& o.gap == if missing > 0 {
                Some(
                    GapRecord {
                        at_input_sample: c as u64,
                        missing_samples: missing as u64,
                        at_output_sample: (s.samples_out + hole) as u64,
                    },
                )
            } else {
                None::<GapRecord>
            }
            &&& t.samples_in == s.samples_in + n
            &&& t.emitted == s.emitted + o.samples_out
            &&& t.samples_out == s.samples_out + hole + o.samples_out
            &&& t.malformed == s.malformed
            &&& t.gaps.next_expected == Some(
                if c + n > u64::MAX {
                    u64::MAX
                } else {
                    (c + n) as u64
                },
            )
            &&& t.gaps.gaps == s.gaps.gaps + if missing > 0 {
                1int
            } else {
                0
            }
            &&& t.gaps.gap_samples == s.gaps.gap_samples + missing
            &&& t.gaps.resets == s.gaps.resets + if back {
                1int
            } else {
                0
            }
            &&& t.discontinuities == match o.gap {
                Some(g) => s.discontinuities.push(g),
                None => s.discontinuities,
            }
            &&& t.metrics.packets_received == s.metrics.packets_received.wrapping_add(1)
            &&& t.metrics.samples_in == s.metrics.samples_in.wrapping_add(n as u64)
            &&& t.metrics.samples_out == s.metrics.samples_out.wrapping_add(o.samples_out as u64)
            &&& t.metrics.gap_samples == s.metrics.gap_samples.wrapping_add(missing as u64)
            &&& t.metrics.seq_gaps == s.metrics.seq_gaps.wrapping_add(
                if missing > 0 {
                    1
                } else {
                    0
                },
            )
            &&& t.metrics.input_power_dbfs == s.metrics.input_power_dbfs
        }),
{
    exactly_one_packet_parses(buf);
    let c = base + be_u64(buf, 12);
    let n = (buf.len() - 20) / 4;
    let d = factor_product(s.plan) as int;
    let missing = missing_at(s.gaps.next_expected, c);
    assert(takes(m, s, buf, r, t));
    let (p, scaled) = choose|p: Packet, scaled: Real64| #[trigger]
        takes_at(m, s, p, scaled, r, t) && has_fields_of(p, buf) && seconds_gives(
            m,
            p.ts_int,
            s.cfg.input_rate,
            scaled,
        );
    assert(call_ensures(
        M::seconds_in_samples,
        (&m, be_u32(buf, 8) as u32, s.cfg.input_rate),
        scaled,
    ));
    let counter = counter_value(scaled, p.ts_frac);
    assert(counter == c);
    assert(p.payload@.len() / 4 == n);
    position_is_below_period(s.chan.stages);
    lemma_outputs_bounded(position(s.chan.stages) as int, n, d);
    vstd::arithmetic::div_mod::lemma_div_pos_is_pos(missing + d - 1, d);
    if missing == 0 {
        vstd::arithmetic::div_mod::lemma_basic_div(d - 1, d);
    }
    assert(s.hole_before(c as u64) == (missing + d - 1) / d);
    assert(s.has_room(c as u64, n));
    let o = r->Ok_0;
    let payload = p.payload@;
    let (a, b, ys) = choose|a: ServiceState, b: ServiceState, ys: Seq<Iq>|
        #![trigger observes(m, s, c as u64, n, a), processes(m, a, components(payload), ys, b)]
        {
            &&& observes(m, s, c as u64, n, a)
            &&& processes(m, a, components(payload), ys, b)
            &&& o == (PacketOutcome {
                samples_in: n as usize,
                samples_out: ys.len() as usize,
                gap: gap_record(s, c as u64),
                malformed: false,
            })
            &&& t == (ServiceState {
                samples_in: s.samples_in + n,
                metrics: b.metrics.received().counted(n as u64, ys.len() as u64),
                ..b
            })
        };
    assert(components(payload).len() / 2 == n);
    assert(a.chan == s.chan && a.plan == s.plan);
    lemma_processed_position(m, a, components(payload), ys, b);
    assert(ys.len() == (position(s.chan.stages) + n) / d);
}

/// What is not one packet is counted, and otherwise changes nothing.
pub proof fn anything_else_is_counted_and_ignored<M: ChainMath>(
    m: M,
    s: ServiceState,
    buf: Seq<u8>,
    r: Result<PacketOutcome, CounterOverflow>,
    t: ServiceState,
)
    requires
        digests(m, s, buf, r, t),
        !is_one_packet(buf),
        s.malformed < u64::MAX,
    ensures
        r matches Ok(o) && o.malformed && o.samples_in == 0 && o.samples_out == 0 && o.gap is None,
        t.malformed == s.malformed + 1,
        t == (ServiceState { malformed: t.malformed, ..s }),
{
    exactly_one_packet_parses(buf);
}

/// A packet is refused only where a counter has no room, and then nothing changes.
pub proof fn refusals_change_nothing<M: ChainMath>(
    m: M,
    s: ServiceState,
    buf: Seq<u8>,
    t: ServiceState,
)
    requires
        digests(m, s, buf, Err(CounterOverflow), t),
    ensures
        t == s,
{
}

/// What is published after a block is the offset of the strongest component
/// anywhere in the channel, from its lower edge to its upper one, the centre and
/// what stands there included; where there is none to be found, what was published
/// before stays. Asked of spectra of numbers.
pub proof fn the_published_offset_is_the_strongest_of_the_channel<M: ChainMath>(
    m: M,
    cfg: ServiceConfig,
    block: Seq<Iq>,
    a: MetricsState,
    b: MetricsState,
)
    requires
        publishes(m, cfg, block, a, b),
        8 <= block.len() <= usize::MAX,
        (Real64 { bits: 0 }).less(cfg.output_rate),
        (Real64 { bits: 0 }).less(cfg.passband_hz),
        forall|mags: Seq<Real64>, i: int|
            #![trigger is_spectrum(m, block, true, mags), mags[i]]
            is_spectrum(m, block, true, mags) && 0 <= i < mags.len() ==> !mags[i].nan(),
    ensures
        exists|mags: Seq<Real64>, bin_hz: Real64, lo: Real64, hi: Real64, r: Option<Real64>|
            #![trigger is_spectrum(m, block, true, mags), call_ensures(M::bin_number, (&m, cfg.passband_hz.negation(), bin_hz), lo), call_ensures(M::bin_number, (&m, cfg.passband_hz, bin_hz), hi), tells_the_strongest(m, mags, bin_hz, lo.round_signed(), hi.round_signed(), r)]
            {
                let half = (mags.len() / 2) as int;
                &&& is_spectrum(m, block, true, mags)
                &&& call_ensures(M::bin_width, (&m, cfg.output_rate, mags.len() as usize), bin_hz)
                &&& call_ensures(M::bin_number, (&m, cfg.passband_hz.negation(), bin_hz), lo)
                &&& call_ensures(M::bin_number, (&m, cfg.passband_hz, bin_hz), hi)
                &&& lo.round_signed() <= hi.round_signed() && lo.round_signed() <= half && -half
                    <= hi.round_signed() ==> tells_the_strongest(
                    m,
                    mags,
                    bin_hz,
                    lo.round_signed(),
                    hi.round_signed(),
                    r,
                )
                &&& match r {
                    Some(f) => call_ensures(M::narrow, (&m, f), b.peak_offset_hz.value),
                    None => b.peak_offset_hz == a.peak_offset_hz,
                }
            },
{
    let (power, offset) = choose|power: Real32, offset: Option<Real64>|
        #![trigger is_power_dbfs(m, block, power), is_estimate(m, block, true, cfg.output_rate, cfg.passband_hz.negation(), cfg.passband_hz, offset)]
        {
            &&& is_power_dbfs(m, block, power)
            &&& is_estimate(
                m,
                block,
                true,
                cfg.output_rate,
                cfg.passband_hz.negation(),
                cfg.passband_hz,
                offset,
            )
            &&& b == (MetricsState {
                output_power_dbfs: b.output_power_dbfs,
                peak_offset_hz: b.peak_offset_hz,
                ..a
            })
            &&& if power.finite() {
                b.output_power_dbfs.value == power && gauge_text_gives(
                    m,
                    power,
                    b.output_power_dbfs.text,
                )
            } else {
                b.output_power_dbfs == a.output_power_dbfs
            }
            &&& match offset {
                Some(f) => narrow_gives(m, f, b.peak_offset_hz.value) && gauge_text_gives(
                    m,
                    b.peak_offset_hz.value,
                    b.peak_offset_hz.text,
                ),
                None => b.peak_offset_hz == a.peak_offset_hz,
            }
        };
    let low = cfg.passband_hz.negation();
    let high = cfg.passband_hz;
    estimates_are_readings(m, block, true, cfg.output_rate, low, high, offset);
    let mags = choose|mags: Seq<Real64>| #[trigger]
        is_spectrum(m, block, true, mags) && is_reading(
            m,
            mags,
            cfg.output_rate,
            low,
            high,
            offset,
        );
    spectra_are_of_the_windowed_signal(m, block, true, mags);
    assert(mags.len() % 2 == 0);
    readings_are_of_the_strongest_component(m, mags, cfg.output_rate, low, high, offset);
    let (bin_hz, lo, hi) = choose|bin_hz: Real64, lo: Real64, hi: Real64|
        #![trigger call_ensures(M::bin_number, (&m, low, bin_hz), lo), call_ensures(M::bin_number, (&m, high, bin_hz), hi)]
        {
            let half = (mags.len() / 2) as int;
            &&& call_ensures(M::bin_width, (&m, cfg.output_rate, mags.len() as usize), bin_hz)
            &&& call_ensures(M::bin_number, (&m, low, bin_hz), lo)
            &&& call_ensures(M::bin_number, (&m, high, bin_hz), hi)
            &&& lo.round_signed() <= hi.round_signed() && lo.round_signed() <= half && -half
                <= hi.round_signed() ==> tells_the_strongest(
                m,
                mags,
                bin_hz,
                lo.round_signed(),
                hi.round_signed(),
                offset,
            )
            &&& lo.round_signed() > hi.round_signed() && lo.round_signed() > -half
                && hi.round_signed() < half ==> offset is None
        };
    let told = tells_the_strongest(m, mags, bin_hz, lo.round_signed(), hi.round_signed(), offset);
}

/// `db` is the mean power of `iq` in decibels: the powers of all samples summed
/// from zero on, over their number; negative infinity where that is not positive.
pub open spec fn is_level_of<M: ChainMath>(m: M, iq: Seq<Iq>, db: Real32) -> bool {
    exists|sums: Seq<Real64>, p: Real32|
        #![trigger call_ensures(M::mean, (&m, sums.last(), iq.len() as usize), p)]
        {
            &&& sums.len() == iq.len() + 1
            &&& sums[0].bits == 0
            &&& forall|k: int|
                0 <= k < iq.len() ==> call_ensures(
                    M::accumulate_power,
                    (&m, sums[k], #[trigger] iq[k]),
                    sums[k + 1],
                )
            &&& call_ensures(M::mean, (&m, sums.last(), iq.len() as usize), p)
            &&& if !p.nan() && !p.negative() && p.bits != 0 {
                call_ensures(M::decibels, (&m, p), db)
            } else {
                db.bits == 0xFF80_0000
            }
        }
}

/// What is published after a block is the level of the whole block, where that is
/// a finite number, and nothing but level and offset is published.
pub proof fn the_published_level_is_that_of_the_block<M: ChainMath>(
    m: M,
    cfg: ServiceConfig,
    block: Seq<Iq>,
    a: MetricsState,
    b: MetricsState,
)
    requires
        publishes(m, cfg, block, a, b),
        block.len() > 0,
    ensures
        exists|db: Real32| #[trigger]
            is_level_of(m, block, db) && if db.finite() {
                b.output_power_dbfs.value == db
            } else {
                b.output_power_dbfs == a.output_power_dbfs
            },
        b.packets_received == a.packets_received,
        b.packets_dropped == a.packets_dropped,
        b.seq_gaps == a.seq_gaps,
        b.gap_samples == a.gap_samples,
        b.samples_in == a.samples_in,
        b.samples_out == a.samples_out,
        b.input_power_dbfs == a.input_power_dbfs,
{
    let (power, offset) = choose|power: Real32, offset: Option<Real64>|
        #![trigger is_power_dbfs(m, block, power), is_estimate(m, block, true, cfg.output_rate, cfg.passband_hz.negation(), cfg.passband_hz, offset)]
        {
            &&& is_power_dbfs(m, block, power)
            &&& is_estimate(
                m,
                block,
                true,
                cfg.output_rate,
                cfg.passband_hz.negation(),
                cfg.passband_hz,
                offset,
            )
            &&& b == (MetricsState {
                output_power_dbfs: b.output_power_dbfs,
                peak_offset_hz: b.peak_offset_hz,
                ..a
            })
            &&& if power.finite() {
                b.output_power_dbfs.value == power && gauge_text_gives(
                    m,
                    power,
                    b.output_power_dbfs.text,
                )
            } else {
                b.output_power_dbfs == a.output_power_dbfs
            }
            &&& match offset {
                Some(f) => narrow_gives(m, f, b.peak_offset_hz.value) && gauge_text_gives(
                    m,
                    b.peak_offset_hz.value,
                    b.peak_offset_hz.text,
                ),
                None => b.peak_offset_hz == a.peak_offset_hz,
            }
        };
    let p = choose|p: Real32| #[trigger]
        crate::dsp::iq::is_mean_power(m, block, p) && if p.positive() {
            crate::dsp::iq::decibels_gives(m, p, power)
        } else {
            power.bits == crate::dsp::iq::NEG_INFINITY32
        };
    let sums = choose|sums: Seq<Real64>| #[trigger]
        crate::dsp::iq::power_sums(m, block, sums) && crate::dsp::iq::mean_gives(
            m,
            sums.last(),
            block.len() as usize,
            p,
        );
    assert(call_ensures(M::mean, (&m, sums.last(), block.len() as usize), p));
    assert forall|k: int| 0 <= k < block.len() implies call_ensures(
        M::accumulate_power,
        (&m, sums[k], #[trigger] block[k]),
        sums[k + 1],
    ) by {
        assert(crate::dsp::iq::accumulate_gives(m, sums[k], block[k], sums[k + 1]));
    }
    assert(is_level_of(m, block, power));
}

/// Once the filters have settled, output samples are collected, all of them and in
/// order, and a block of 4096 or more is measured as soon as it is complete.
pub proof fn settled_output_is_collected_and_measured<M: ChainMath>(
    m: M,
    s: ServiceState,
    n: int,
    ys: Seq<Iq>,
    t: ServiceState,
)
    requires
        measures(m, s, n, ys, t),
        s.samples_in + n >= settling_of(s.plan),
    ensures
        s.measure.len() + ys.len() < 4096 ==> t.measure == s.measure + ys && t.metrics == s.metrics,
        s.measure.len() + ys.len() >= 4096 ==> t.measure.len() == 0 && publishes(
            m,
            s.cfg,
            s.measure + ys,
            s.metrics,
            t.metrics,
        ),
        t.sent == s.sent,
        t.pending == s.pending,
        t.samples_out == s.samples_out,
{
}

/// The report says yes only to a run in which every packet parsed, none was
/// dropped and none was missing, and to every such run; level and offset are in it
/// where they were measured.
pub proof fn reports_say_what_happened(s: ServiceState, r: Report)
    requires
        is_report(s, r),
    ensures
        r.ok <==> (r.malformed_packets == 0 && r.packets_dropped == 0 && r.seq_gaps == 0),
        r.malformed_packets == s.malformed,
        r.packets_dropped == s.dropped,
        r.seq_gaps == s.metrics.seq_gaps,
        r.gap_samples == s.metrics.gap_samples,
        r.packets_received == s.metrics.packets_received,
        r.samples_in == s.samples_in,
        r.samples_out == s.samples_out,
        s.metrics.output_power_dbfs.value.finite() ==> r.output_power_dbfs == Some(
            s.metrics.output_power_dbfs.value,
        ),
        !s.metrics.output_power_dbfs.value.finite() ==> r.output_power_dbfs is None,
        s.metrics.peak_offset_hz.value.finite() ==> r.peak_offset_hz == Some(
            s.metrics.peak_offset_hz.value,
        ),
        !s.metrics.peak_offset_hz.value.finite() ==> r.peak_offset_hz is None,
        r.discontinuities@ == s.discontinuities,
        r.input_rate_hz == s.cfg.input_rate,
        r.output_rate_hz == s.cfg.output_rate,
        r.offset_hz == s.cfg.offset_hz,
        r.passband_hz == s.cfg.passband_hz,
        r.stopband_db == s.cfg.stopband_db,
        r.decimation == factor_product(s.plan),
        r.settling_samples == settling_of(s.plan),
{
}

/// A plan can be run exactly when it has stages, each of them with a factor, an odd
/// filter of three taps or more and a positive rate, and its decimation and its
/// settling time can be counted.
pub proof fn plans_that_can_be_run(plan: &Vec<crate::dsp::plan::StagePlan>, r: bool)
    requires
        call_ensures(super::channelizer::is_deployable, (plan,), r),
    ensures
        r <==> {
            &&& plan@.len() > 0
            &&& forall|k: int|
                0 <= k < plan@.len() ==> (#[trigger] plan@[k]).factor >= 1 && plan@[k].taps >= 3
                    && plan@[k].taps % 2 == 1 && (Real64 { bits: 0 }).less(plan@[k].input_rate)
            &&& factor_product(plan@) <= usize::MAX
            &&& settling_of(plan@) <= usize::MAX
        },
{
}

/// Sample `j` of an output packet is sample `j` of what was to be sent, in-phase
/// component first, on the 16-bit scale.
pub proof fn packets_carry_their_samples_in_order<M: ServiceMath>(
    m: M,
    rate: Real64,
    iq: Seq<Iq>,
    first: int,
    p: SentPacket,
    j: int,
)
    requires
        is_output_packet(m, rate, iq, first, p),
        0 <= first <= u64::MAX,
        0 <= j < iq.len(),
    ensures
        p.samples.len() == 2 * iq.len(),
        p.samples[2 * j] == quantized(iq[j].i),
        p.samples[2 * j + 1] == quantized(iq[j].q),
        p.rate == rate,
        call_ensures(M::output_time, (&m, first as u64, rate), p.ts),
{
    assert((2 * j) / 2 == j);
    assert((2 * j + 1) / 2 == j);
}

/// What is sent and what is still pending is, in order, what was pending before and
/// what was produced: sample `i` of all of them stands in packet `i / 1024`, or is
/// still pending.
pub proof fn emission_keeps_every_sample_in_order<M: ServiceMath>(
    m: M,
    s: ServiceState,
    ys: Seq<Iq>,
    t: ServiceState,
    i: int,
)
    requires
        emits(m, s, ys, t),
        s.pending.len() < 1024,
        0 <= i < s.pending.len() + ys.len(),
    ensures
        ({
            let y = if i < s.pending.len() {
                s.pending[i]
            } else {
                ys[i - s.pending.len()]
            };
            let full = (s.pending.len() + ys.len()) / 1024;
            if i < 1024 * full {
                let p = t.sent[s.sent.len() + i / 1024];
                p.samples.len() == 2048 && p.samples[2 * (i % 1024)] == quantized(y.i)
                    && p.samples[2 * (i % 1024) + 1] == quantized(y.q)
            } else {
                t.pending[i - 1024 * full] == y
            }
        }),
        t.sent.len() == s.sent.len() + (s.pending.len() + ys.len()) / 1024,
        t.pending.len() == (s.pending.len() + ys.len()) % 1024,
        t.emitted == s.emitted + ys.len(),
        t.samples_out == s.samples_out + ys.len(),
{
    let all = s.pending + ys;
    let full = (s.pending.len() + ys.len()) / 1024;
    if i < 1024 * full {
        let k = i / 1024;
        let part = all.subrange(1024 * k, 1024 * k + 1024);
        assert(is_output_packet(
            m,
            s.cfg.output_rate,
            part,
            s.unsent() + 1024 * k,
            t.sent[s.sent.len() + k],
        ));
        let j = i % 1024;
        assert(part[j] == all[i]);
        assert((2 * j) / 2 == j);
        assert((2 * j + 1) / 2 == j);
    }
}

/// A new service has done nothing yet, and is set up for its configuration: mixer
/// for the offset at the input rate, stages for the plan and the attenuation.
pub proof fn new_services_are_set_up_as_configured<
    S: super::output::OutputSink,
    M: crate::dsp::nco::OscillatorMath + crate::dsp::fir::FilterDesignMath,
>(
    m: &M,
    plan: Vec<crate::dsp::plan::StagePlan>,
    cfg: ServiceConfig,
    sink: S,
    metrics: crate::metrics::Metrics,
    svc: super::channelizer::ChannelizerService<S>,
    k: int,
)
    requires
        call_ensures(
            super::channelizer::ChannelizerService::<S>::new::<M>,
            (plan, cfg, sink, metrics, m),
            svc,
        ),
    ensures
        ({
            let s = svc.state();
            &&& s.cfg == cfg
            &&& s.plan == plan@
            &&& s.samples_in == 0 && s.samples_out == 0 && s.emitted == 0 && s.malformed == 0
            &&& s.gaps.next_expected is None && s.gaps.gaps == 0 && s.gaps.gap_samples == 0
                && s.gaps.resets == 0
            &&& s.discontinuities.len() == 0 && s.pending.len() == 0 && s.measure.len() == 0
            &&& s.sent == sink.sent() && s.metrics == metrics.state()
            &&& s.chan.osc.phase.bits == 0
            &&& (Real64 { bits: 0 }).less(cfg.input_rate) ==> call_ensures(
                M::phase_step,
                (m, cfg.offset_hz, cfg.input_rate),
                s.chan.osc.step,
            )
            &&& s.chan.stages.len() == plan@.len()
            &&& 0 <= k < plan@.len() ==> {
                &&& crate::dsp::fir::is_kaiser_lowpass(
                    *m,
                    plan@[k].taps,
                    plan@[k].cutoff_hz,
                    plan@[k].input_rate,
                    cfg.stopband_db,
                    s.chan.stages[k].i.taps,
                )
                &&& s.chan.stages[k].q == s.chan.stages[k].i
                &&& s.chan.stages[k].i.factor == plan@[k].factor
                &&& s.chan.stages[k].i.phase == 0
            }
        }),
{
    if 0 <= k < plan@.len() {
        assert(crate::dsp::decimator::is_fresh_stage(
            *m,
            plan@[k],
            cfg.stopband_db,
            svc.state().chan.stages[k],
        ));
    }
}

/// Sending what is pending sends it in one packet, in order and stamped with the
/// index of its first sample; nothing is sent where nothing is pending. Nothing is
/// pending afterwards, and the timeline stays where it is.
pub proof fn flushing_sends_what_is_pending<M: ServiceMath>(
    m: M,
    s: ServiceState,
    t: ServiceState,
    j: int,
)
    requires
        flushes(m, s, t),
        s.pending.len() <= s.samples_out <= u64::MAX,
    ensures
        t.pending.len() == 0,
        t.samples_out == s.samples_out,
        t.emitted == s.emitted,
        t.samples_in == s.samples_in,
        t.measure == s.measure,
        s.pending.len() == 0 ==> t.sent == s.sent,
        s.pending.len() > 0 ==> {
            let p = t.sent[s.sent.len() as int];
            &&& t.sent.len() == s.sent.len() + 1
            &&& s.sent.is_prefix_of(t.sent)
            &&& p.samples.len() == 2 * s.pending.len()
            &&& p.rate == s.cfg.output_rate
            &&& call_ensures(
                M::output_time,
                (&m, (s.samples_out - s.pending.len()) as u64, s.cfg.output_rate),
                p.ts,
            )
            &&& 0 <= j < s.pending.len() ==> p.samples[2 * j] == quantized(s.pending[j].i)
                && p.samples[2 * j + 1] == quantized(s.pending[j].q)
        },
{
    if s.pending.len() > 0 {
        let p = choose|p: SentPacket| #[trigger]
            is_output_packet(m, s.cfg.output_rate, s.pending, s.unsent(), p) && t.dropped
                >= s.dropped && t == (ServiceState {
                pending: Seq::empty(),
                sent: s.sent.push(p),
                dropped: t.dropped,
                ..s
            }).mirrored();
        assert(t.sent =~= s.sent.push(p));
        if 0 <= j < s.pending.len() {
            assert((2 * j) / 2 == j);
            assert((2 * j + 1) / 2 == j);
        }
        assert(output_time_gives(m, s.unsent() as u64, s.cfg.output_rate, p.ts));
    }
}

/// Finishing sends what is still pending, and reports what happened until then.
pub proof fn finishing_flushes_and_reports<S: super::output::OutputSink, M: ServiceMath>(
    m: &M,
    svc: super::channelizer::ChannelizerService<S>,
    r: (Report, S),
)
    requires
        call_ensures(
            super::channelizer::ChannelizerService::<S>::finish_with_sink::<M>,
            (svc, m),
            r,
        ),
    ensures
        exists|cut: ServiceState| #[trigger]
            flushes(*m, svc.state(), cut) && r.1.sent() == cut.sent && {
                &&& r.0.packets_dropped == cut.dropped
                &&& r.0.samples_in == cut.samples_in
                &&& r.0.samples_out == cut.samples_out
                &&& r.0.malformed_packets == cut.malformed
                &&& r.0.discontinuities@ == cut.discontinuities
                &&& r.0.ok <==> (cut.malformed == 0 && cut.dropped == 0 && cut.metrics.seq_gaps == 0)
            },
{
    let cut = choose|cut: ServiceState| #[trigger]
        flushes(*m, svc.state(), cut) && is_report(cut.mirrored(), r.0) && r.1.sent() == cut.sent
            && r.1.dropped() == cut.dropped;
    assert(flushes(*m, svc.state(), cut));
}

/// What the pipeline puts out comes of the components that went in, decoded in
/// order and run through the channelizer as it stands; they are sent, and then
/// measured, with the number of samples that went in.
pub proof fn the_pipeline_runs_on_what_went_in<M: ChainMath>(
    m: M,
    s: ServiceState,
    interleaved: Seq<i16>,
    ys: Seq<Iq>,
    t: ServiceState,
)
    requires
        processes(m, s, interleaved, ys, t),
    ensures
        exists|iq: Seq<Iq>, mid: ServiceState|
            #![trigger crate::dsp::decimator::are_samples_of(iq, interleaved), measures(m, mid, (interleaved.len() / 2) as int, ys, t)]
            {
                &&& crate::dsp::decimator::are_samples_of(iq, interleaved)
                &&& crate::dsp::decimator::produces(m, s.chan, iq, t.chan, ys)
                &&& emits(m, ServiceState { chan: t.chan, ..s }, ys, mid)
                &&& measures(m, mid, (interleaved.len() / 2) as int, ys, t)
            },
        t.samples_in == s.samples_in,
        t.gaps == s.gaps,
        t.malformed == s.malformed,
        t.discontinuities == s.discontinuities,
{
    let n = (interleaved.len() / 2) as int;
    let mid = choose|mid: ServiceState| #[trigger]
        measures(m, mid, n, ys, t) && crate::dsp::decimator::channelizes(
            m,
            s.chan,
            interleaved,
            mid.chan,
            ys,
        ) && emits(m, ServiceState { chan: mid.chan, ..s }, ys, mid);
    let iq = choose|iq: Seq<Iq>| #[trigger]
        crate::dsp::decimator::are_samples_of(iq, interleaved) && crate::dsp::decimator::produces(
            m,
            s.chan,
            iq,
            mid.chan,
            ys,
        );
    assert(t.chan == mid.chan);
    assert(crate::dsp::decimator::are_samples_of(iq, interleaved));
}

/// Drops of the sink are counted once: by as many as there are more of them than
/// were counted before.
pub proof fn drops_are_counted_once(s: ServiceState)
    requires
        s.seen <= s.dropped,
    ensures
        s.mirrored().seen == s.dropped,
        s.mirrored().dropped == s.dropped,
        s.mirrored().metrics.packets_dropped == s.metrics.packets_dropped.wrapping_add(
            (s.dropped - s.seen) as u64,
        ),
        s.mirrored().sent == s.sent,
        s.mirrored().pending == s.pending,
        s.mirrored().mirrored() == s.mirrored(),
{
}

} // verus!

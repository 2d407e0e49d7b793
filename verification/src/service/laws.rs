//! What holds of the channelizer pipeline as a whole.

use vstd::prelude::*;
#[allow(unused_imports)]
use crate::dsp::decimator::{are_samples_of, channelizes, decimation_is_exact, outputs, period, position};
#[allow(unused_imports)]
use crate::dsp::decimator::{position_is_below_period, produces, runs, settling_of, ChannelState};
#[allow(unused_imports)]
use crate::dsp::iq::Iq;
#[allow(unused_imports)]
use crate::dsp::plan::factor_product;
#[allow(unused_imports)]
use super::channelizer::{accepts, emits, gap_record, is_output_packet, is_report, measures};
#[allow(unused_imports)]
use super::channelizer::{observes, output_time_gives, processes, ChainMath, PacketOutcome, Report, ServiceMath};
#[allow(unused_imports)]
use super::channelizer::{ServiceState, OUTPUT_PACKET_SAMPLES};
#[allow(unused_imports)]
use crate::vita49::packet::components;

verus! {

/// Output packets are bounded and their timestamps are contiguous: every packet
/// that fills up carries exactly one packet's worth of samples, is stamped with
/// the index one packet's worth after the one before it, and what comes next
/// goes on where the last one ended.
pub proof fn output_is_bounded_and_contiguous<M: ServiceMath>(
    m: M,
    s: ServiceState,
    ys: Seq<Iq>,
    t: ServiceState,
    k: int,
)
    requires
        emits(m, s, ys, t),
        s.pending.len() < OUTPUT_PACKET_SAMPLES,
        0 <= k < t.sent.len() - s.sent.len(),
    ensures
        t.sent[s.sent.len() + k].samples.len() == 2 * OUTPUT_PACKET_SAMPLES,
        t.sent[s.sent.len() + k].rate == s.cfg.output_rate,
        output_time_gives(
            m,
            (s.unsent() + OUTPUT_PACKET_SAMPLES * k) as u64,
            s.cfg.output_rate,
            t.sent[s.sent.len() + k].ts,
        ),
        t.unsent() == s.unsent() + OUTPUT_PACKET_SAMPLES * (t.sent.len() - s.sent.len()),
        t.pending.len() < OUTPUT_PACKET_SAMPLES,
{
    let all = s.pending + ys;
    let size = OUTPUT_PACKET_SAMPLES as int;
    assert(is_output_packet(
        m,
        s.cfg.output_rate,
        all.subrange(size * k, size * k + size),
        s.unsent() + size * k,
        t.sent[s.sent.len() + k],
    ));
}

/// A gap in the input leaves a hole in the output: nothing from before the gap
/// shares a packet with anything after it, and the output timeline moves on by
/// at least the time that is missing, and by less than one output sample more.
pub proof fn a_gap_leaves_a_hole<M: ServiceMath>(
    m: M,
    s: ServiceState,
    counter: u64,
    n: int,
    t: ServiceState,
)
    requires
        observes(m, s, counter, n, t),
        s.gaps.gap_before(counter) is Some,
        factor_product(s.plan) >= 1,
    ensures
        t.pending.len() == 0,
        t.unsent() == s.samples_out + s.hole_before(counter),
        ({
            let d = factor_product(s.plan) as int;
            let missing = s.gaps.gap_before(counter).unwrap().missing_samples as int;
            missing <= s.hole_before(counter) * d < missing + d
        }),
        t.discontinuities == s.discontinuities.push(gap_record(s, counter).unwrap()),
{
    let d = factor_product(s.plan) as int;
    let missing = s.gaps.gap_before(counter).unwrap().missing_samples as int;
    let a = missing + d - 1;
    let q = a / d;
    vstd::arithmetic::div_mod::lemma_fundamental_div_mod(a, d);
    vstd::arithmetic::div_mod::lemma_mod_bound(a, d);
    vstd::arithmetic::mul::lemma_mul_is_commutative(d, q);
}

/// The output resumes behind the hole: the first packet sent after a gap is
/// stamped with the output index that the gap's record gives, and until one is
/// sent that index is where the next one starts.
pub proof fn output_resumes_behind_the_hole<M: ChainMath>(
    m: M,
    s: ServiceState,
    counter: u64,
    n: int,
    a: ServiceState,
    interleaved: Seq<i16>,
    ys: Seq<Iq>,
    t: ServiceState,
)
    requires
        observes(m, s, counter, n, a),
        s.gaps.gap_before(counter) is Some,
        0 <= s.samples_out + s.hole_before(counter) <= u64::MAX,
        processes(m, a, interleaved, ys, t),
    ensures
        ({
            let record = gap_record(s, counter).unwrap();
            if t.sent.len() > a.sent.len() {
                output_time_gives(
                    m,
                    record.at_output_sample,
                    s.cfg.output_rate,
                    t.sent[a.sent.len() as int].ts,
                )
            } else {
                t.sent == a.sent && t.unsent() == record.at_output_sample
            }
        }),
{
    let size = OUTPUT_PACKET_SAMPLES as int;
    let taken = (interleaved.len() / 2) as int;
    let mid = choose|mid: ServiceState| #[trigger]
        measures(m, mid, taken, ys, t) && channelizes(m, a.chan, interleaved, mid.chan, ys) && emits(
            m,
            ServiceState { chan: mid.chan, ..a },
            ys,
            mid,
        );
    let all = a.pending + ys;
    assert(a.unsent() == s.samples_out + s.hole_before(counter));
    if t.sent.len() > a.sent.len() {
        assert(is_output_packet(
            m,
            a.cfg.output_rate,
            all.subrange(size * 0, size * 0 + size),
            a.unsent() + size * 0,
            mid.sent[a.sent.len() + 0int],
        ));
    } else {
        assert(t.sent =~= a.sent);
    }
}

/// Without a gap the output timeline is left alone.
pub proof fn no_gap_no_hole<M: ServiceMath>(
    m: M,
    s: ServiceState,
    counter: u64,
    n: int,
    t: ServiceState,
)
    requires
        observes(m, s, counter, n, t),
        s.gaps.gap_before(counter) is None,
    ensures
        t.samples_out == s.samples_out,
        t.pending == s.pending,
        t.sent == s.sent,
        t.discontinuities == s.discontinuities,
        t.metrics == s.metrics,
{
}

/// Nothing is published before the filters have settled.
pub proof fn nothing_is_published_before_settling<M: ChainMath>(
    m: M,
    s: ServiceState,
    interleaved: Seq<i16>,
    ys: Seq<Iq>,
    t: ServiceState,
)
    requires
        processes(m, s, interleaved, ys, t),
        s.samples_in + interleaved.len() / 2 < settling_of(s.plan),
    ensures
        t.metrics.output_power_dbfs == s.metrics.output_power_dbfs,
        t.metrics.peak_offset_hz == s.metrics.peak_offset_hz,
        t.measure == s.measure,
{
}

/// What one run of the pipeline does to the position within the decimation
/// period, and how many samples come out of it.
pub proof fn lemma_processed_position<M: ChainMath>(
    m: M,
    s: ServiceState,
    interleaved: Seq<i16>,
    ys: Seq<Iq>,
    t: ServiceState,
)
    requires
        processes(m, s, interleaved, ys, t),
        s.chan.valid(),
        period(s.chan.stages) == factor_product(s.plan),
    ensures
        ({
            let d = factor_product(s.plan);
            let n = interleaved.len() / 2;
            &&& ys.len() == (position(s.chan.stages) + n) / d
            &&& position(t.chan.stages) == (position(s.chan.stages) + n) % d
            &&& t.chan.valid()
            &&& period(t.chan.stages) == factor_product(t.plan)
            &&& t.plan == s.plan
            &&& t.samples_out == s.samples_out + ys.len()
        }),
{
    let n = (interleaved.len() / 2) as int;
    let mid = choose|mid: ServiceState| #[trigger]
        measures(m, mid, n, ys, t) && channelizes(m, s.chan, interleaved, mid.chan, ys) && emits(
            m,
            ServiceState { chan: mid.chan, ..s },
            ys,
            mid,
        );
    let iq = choose|iq: Seq<Iq>| #[trigger]
        are_samples_of(iq, interleaved) && produces(m, s.chan, iq, mid.chan, ys);
    let (states, each) = choose|states: Seq<ChannelState>, each: Seq<Option<Iq>>| #[trigger]
        runs(m, states, iq, each) && states[0] == s.chan && states.last() == mid.chan && ys
            == outputs(each);
    decimation_is_exact(m, states, iq, each);
}

/// Every input sample is accounted for: on an intact stream, output samples times
/// the decimation plus the inputs still on their way to the next output make up
/// exactly the inputs that went in.
pub proof fn decimation_accounts_for_every_sample<M: ChainMath>(
    m: M,
    s: ServiceState,
    payload: Seq<u8>,
    counter: u64,
    o: PacketOutcome,
    t: ServiceState,
)
    requires
        accepts(m, s, payload, counter, o, t),
        s.gaps.gap_before(counter) is None,
        s.chan.valid(),
        period(s.chan.stages) == factor_product(s.plan),
    ensures
        ({
            let d = factor_product(s.plan) as int;
            let n = payload.len() / 4;
            &&& t.samples_in == s.samples_in + n
            &&& t.samples_out * d + position(t.chan.stages) == s.samples_out * d + position(
                s.chan.stages,
            ) + n
        }),
        t.chan.valid(),
        period(t.chan.stages) == factor_product(t.plan),
{
    let n = (payload.len() / 4) as int;
    let (a, b, ys) = choose|a: ServiceState, b: ServiceState, ys: Seq<Iq>|
        #![trigger observes(m, s, counter, n, a), processes(m, a, components(payload), ys, b)]
        {
            &&& observes(m, s, counter, n, a)
            &&& processes(m, a, components(payload), ys, b)
            &&& o == (PacketOutcome {
                samples_in: n as usize,
                samples_out: ys.len() as usize,
                gap: gap_record(s, counter),
                malformed: false,
            })
            &&& t == (ServiceState {
                samples_in: s.samples_in + n,
                metrics: b.metrics.received().counted(n as u64, ys.len() as u64),
                ..b
            })
        };
    assert(components(payload).len() / 2 == n);
    lemma_processed_position(m, a, components(payload), ys, b);
    let d = factor_product(s.plan) as int;
    let p = position(s.chan.stages) as int;
    position_is_below_period(s.chan.stages);
    vstd::arithmetic::div_mod::lemma_fundamental_div_mod(p + n, d);
    let q = ys.len() as int;
    assert((s.samples_out + q) * d == s.samples_out * d + d * q) by (nonlinear_arith);
}

/// The metrics count the drops that have been seen.
pub open spec fn drops_mirrored(s: ServiceState) -> bool {
    s.metrics.packets_dropped == s.seen && s.seen <= s.dropped
}

/// Counting the sink's drops never counts one twice or loses one: once the
/// metrics agree with the drops seen, they do so after every packet, and
/// mirroring brings them to the sink's own count.
pub proof fn drops_stay_mirrored<M: ChainMath>(
    m: M,
    s: ServiceState,
    payload: Seq<u8>,
    counter: u64,
    o: PacketOutcome,
    t: ServiceState,
)
    requires
        accepts(m, s, payload, counter, o, t),
        drops_mirrored(s),
    ensures
        drops_mirrored(t),
        t.mirrored().metrics.packets_dropped == t.dropped,
        t.dropped >= s.dropped,
{
}

/// A discontinuity fails the report, and so do a malformed packet and a dropped
/// one.
pub proof fn faults_fail_the_report<M: ChainMath>(
    m: M,
    s: ServiceState,
    payload: Seq<u8>,
    counter: u64,
    o: PacketOutcome,
    t: ServiceState,
    r: Report,
)
    requires
        accepts(m, s, payload, counter, o, t),
        s.metrics.seq_gaps < u64::MAX,
        is_report(t, r),
    ensures
        o.gap is Some ==> !r.ok,
        r.malformed_packets > 0 ==> !r.ok,
        r.packets_dropped > 0 ==> !r.ok,
{
}

} // verus!

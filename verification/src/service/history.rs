//! What holds of a service over any number of calls.

use vstd::prelude::*;
#[allow(unused_imports)]
use crate::dsp::decimator::{channelizes, period, position, position_is_below_period, settling_of};
#[allow(unused_imports)]
use crate::dsp::iq::Iq;
#[allow(unused_imports)]
use crate::metrics::GaugeState;
#[allow(unused_imports)]
use crate::vita49::packet::{components, counter_value, has_fields_of, packet_fault, seconds_gives, Packet, HEADER_BYTES};
#[allow(unused_imports)]
use super::channelizer::{accepts, digests, emits, finishes, flushes, gap_record, holes, is_output_packet, measures, observes};
#[allow(unused_imports)]
use super::channelizer::{output_time_gives, processes, takes_at, ChainMath, CounterOverflow, PacketOutcome, ServiceMath};
#[allow(unused_imports)]
use super::channelizer::{is_report, takes, Report, ServiceState, MEASURE_BLOCK, OUTPUT_PACKET_SAMPLES};
#[allow(unused_imports)]
use super::laws::decimation_accounts_for_every_sample;
#[allow(unused_imports)]
use crate::dsp::plan::factor_product;
#[allow(unused_imports)]
use super::output::SentPacket;

verus! {

/// What a service can be fed.
pub enum Feed {
    /// Interleaved components.
    Interleaved(Seq<i16>),
    /// A datagram.
    Datagram(Seq<u8>),
    /// Something that could not even be framed.
    Unframed,
}

impl Feed {
    /// Input samples that the feed carries.
    pub open spec fn inputs(self) -> int {
        match self {
            Feed::Interleaved(components) => (components.len() / 2) as int,
            Feed::Datagram(buf) => if packet_fault(buf) is None {
                (buf.len() - HEADER_BYTES) / 4
            } else {
                0
            },
            Feed::Unframed => 0,
        }
    }
}

/// Feeding `f` takes a service from `s` to `t`.
pub open spec fn feeds<M: ChainMath>(m: M, s: ServiceState, f: Feed, t: ServiceState) -> bool {
    match f {
        Feed::Interleaved(interleaved) => exists|ys: Seq<Iq>| #[trigger]
            processes(m, s, interleaved, ys, t),
        Feed::Datagram(buf) => exists|r: Result<PacketOutcome, CounterOverflow>| #[trigger]
            digests(m, s, buf, r, t),
        Feed::Unframed => t == (ServiceState { malformed: s.malformed + 1, ..s }),
    }
}

/// `states` are the states of a service that is fed `fed`, from before the first
/// feed to after the last.
pub open spec fn is_history<M: ChainMath>(m: M, states: Seq<ServiceState>, fed: Seq<Feed>) -> bool {
    &&& states.len() == fed.len() + 1
    &&& forall|k: int| 0 <= k < fed.len() ==> #[trigger] feeds(m, states[k], fed[k], states[k + 1])
}

/// Input samples of all feeds together.
pub open spec fn total_inputs(fed: Seq<Feed>) -> int
    decreases fed.len(),
{
    if fed.len() == 0 {
        0
    } else {
        total_inputs(fed.drop_last()) + fed.last().inputs()
    }
}

/// The service has just been built.
pub open spec fn is_new(s: ServiceState) -> bool {
    &&& s.samples_in == 0
    &&& s.emitted == 0
    &&& s.samples_out == 0
    &&& s.discontinuities.len() == 0
    &&& s.pending.len() == 0
    &&& s.measure.len() == 0
}

/// `p` is a full packet whose first sample has index `first`.
pub open spec fn is_full_packet_at<M: ServiceMath>(
    m: M,
    s: ServiceState,
    first: int,
    p: SentPacket,
) -> bool {
    &&& p.samples.len() == 2 * OUTPUT_PACKET_SAMPLES
    &&& p.rate == s.cfg.output_rate
    &&& output_time_gives(m, first as u64, s.cfg.output_rate, p.ts)
}

/// What is sent between `s` and `t` are full packets, one right after the other.
pub open spec fn sends_in_order<M: ServiceMath>(m: M, s: ServiceState, t: ServiceState) -> bool {
    &&& s.sent.is_prefix_of(t.sent)
    &&& t.unsent() == s.unsent() + OUTPUT_PACKET_SAMPLES * (t.sent.len() - s.sent.len())
    &&& forall|k: int|
        0 <= k < t.sent.len() - s.sent.len() ==> is_full_packet_at(
            m,
            s,
            s.unsent() + OUTPUT_PACKET_SAMPLES * k,
            #[trigger] t.sent[s.sent.len() + k],
        )
}

/// Complex samples that packets carry, all together.
pub open spec fn carried(sent: Seq<SentPacket>) -> int
    decreases sent.len(),
{
    if sent.len() == 0 {
        0
    } else {
        carried(sent.drop_last()) + sent.last().samples.len() / 2
    }
}

/// The gauges of level and offset are those of `s`.
pub open spec fn same_gauges(s: ServiceState, t: ServiceState) -> bool {
    &&& t.metrics.output_power_dbfs == s.metrics.output_power_dbfs
    &&& t.metrics.peak_offset_hz == s.metrics.peak_offset_hz
}

/// What one feed with `n` input samples does.
pub open spec fn is_sound_feed<M: ServiceMath>(m: M, s: ServiceState, n: int, t: ServiceState) -> bool {
    &&& t.cfg == s.cfg
    &&& t.plan == s.plan
    &&& s.samples_in <= t.samples_in <= s.samples_in + n
    &&& t.emitted >= s.emitted
    &&& t.measure.len() <= s.measure.len() + (t.emitted - s.emitted)
    &&& s.samples_in + n < settling_of(s.plan) || s.measure.len() + (t.emitted - s.emitted)
        < MEASURE_BLOCK ==> same_gauges(s, t)
    &&& s.discontinuities.is_prefix_of(t.discontinuities)
    &&& t.pending.len() < OUTPUT_PACKET_SAMPLES
    &&& s.balanced() ==> t.balanced()
    &&& carried(t.sent) + t.pending.len() == carried(s.sent) + s.pending.len() + (t.emitted
        - s.emitted)
    &&& t.discontinuities.len() == s.discontinuities.len() ==> sends_in_order(m, s, t)
}

/// Packets of one size carry their number times the size.
proof fn lemma_carried_adds(sent: Seq<SentPacket>, more: Seq<SentPacket>, n: int)
    requires
        sent.is_prefix_of(more),
        sent.len() <= n <= more.len(),
        forall|k: int|
            sent.len() <= k < more.len() ==> (#[trigger] more[k]).samples.len() == 2
                * OUTPUT_PACKET_SAMPLES,
    ensures
        carried(more.take(n)) == carried(sent) + OUTPUT_PACKET_SAMPLES * (n - sent.len()),
    decreases n,
{
    if n == sent.len() {
        assert(more.take(n) =~= sent);
    } else {
        lemma_carried_adds(sent, more, n - 1);
        assert(more.take(n).drop_last() =~= more.take(n - 1));
        assert(more.take(n).last() == more[n - 1]);
    }
}

proof fn lemma_processes_sound<M: ChainMath>(
    m: M,
    s: ServiceState,
    interleaved: Seq<i16>,
    ys: Seq<Iq>,
    t: ServiceState,
)
    requires
        processes(m, s, interleaved, ys, t),
        s.pending.len() < OUTPUT_PACKET_SAMPLES,
    ensures
        is_sound_feed(m, s, (interleaved.len() / 2) as int, t),
        t.samples_in == s.samples_in,
        t.discontinuities == s.discontinuities,
{
    let n = (interleaved.len() / 2) as int;
    let mid = choose|mid: ServiceState| #[trigger]
        measures(m, mid, n, ys, t) && channelizes(m, s.chan, interleaved, mid.chan, ys) && emits(
            m,
            ServiceState { chan: mid.chan, ..s },
            ys,
            mid,
        );
    let size = OUTPUT_PACKET_SAMPLES as int;
    let all = s.pending + ys;
    assert forall|k: int| 0 <= k < t.sent.len() - s.sent.len() implies is_full_packet_at(
        m,
        s,
        s.unsent() + OUTPUT_PACKET_SAMPLES * k,
        #[trigger] t.sent[s.sent.len() + k],
    ) by {
        assert(is_output_packet(
            m,
            s.cfg.output_rate,
            all.subrange(size * k, size * k + size),
            s.unsent() + size * k,
            mid.sent[s.sent.len() + k],
        ));
    }
    assert forall|k: int| s.sent.len() <= k < t.sent.len() implies (#[trigger] t.sent[k]).samples.len()
        == 2 * OUTPUT_PACKET_SAMPLES by {
        assert(t.sent[s.sent.len() + (k - s.sent.len())] == t.sent[k]);
    }
    lemma_carried_adds(s.sent, t.sent, t.sent.len() as int);
    assert(t.sent.take(t.sent.len() as int) =~= t.sent);
}

/// Sending what is pending turns pending samples into carried ones.
proof fn lemma_flush_carries<M: ServiceMath>(m: M, s: ServiceState, t: ServiceState)
    requires
        flushes(m, s, t),
    ensures
        carried(t.sent) == carried(s.sent) + s.pending.len(),
        t.pending.len() == 0,
{
    if s.pending.len() > 0 {
        let p = choose|p: SentPacket| #[trigger]
            is_output_packet(m, s.cfg.output_rate, s.pending, s.unsent(), p) && t.dropped
                >= s.dropped && t == (ServiceState {
                pending: Seq::empty(),
                sent: s.sent.push(p),
                dropped: t.dropped,
                ..s
            }).mirrored();
        assert(t.sent.drop_last() =~= s.sent);
        assert(p.samples.len() == 2 * s.pending.len());
    }
}

proof fn lemma_observes_sound<M: ChainMath>(
    m: M,
    s: ServiceState,
    counter: u64,
    n: int,
    t: ServiceState,
)
    requires
        observes(m, s, counter, n, t),
        n >= 0,
        s.pending.len() < OUTPUT_PACKET_SAMPLES,
    ensures
        is_sound_feed(m, s, n, t),
        same_gauges(s, t),
        t.emitted == s.emitted,
        t.samples_in == s.samples_in,
        t.measure == s.measure,
        s.gaps.gap_before(counter) is Some ==> t.discontinuities.len() == s.discontinuities.len() + 1,
{
    if s.gaps.gap_before(counter) is Some {
        let seen = ServiceState { gaps: s.gaps.after(counter, n as u64), ..s };
        let cut = choose|cut: ServiceState| #[trigger]
            flushes(m, seen, cut) && t == (ServiceState {
                samples_out: s.samples_out + s.hole_before(counter),
                metrics: cut.metrics.gap(s.gaps.gap_before(counter).unwrap().missing_samples),
                discontinuities: s.discontinuities.push(gap_record(s, counter).unwrap()),
                ..cut
            });
        lemma_flush_carries(m, seen, cut);
        let record = gap_record(s, counter).unwrap();
        assert(s.discontinuities.push(record).drop_last() =~= s.discontinuities);
        assert(t.discontinuities == s.discontinuities.push(record));
    }
}

proof fn lemma_accepts_sound<M: ChainMath>(
    m: M,
    s: ServiceState,
    payload: Seq<u8>,
    counter: u64,
    o: PacketOutcome,
    t: ServiceState,
)
    requires
        accepts(m, s, payload, counter, o, t),
        s.pending.len() < OUTPUT_PACKET_SAMPLES,
    ensures
        is_sound_feed(m, s, (payload.len() / 4) as int, t),
        s.gaps.gap_before(counter) is Some ==> t.discontinuities.len() == s.discontinuities.len() + 1,
{
    let n = (payload.len() / 4) as int;
    let (a, b, ys) = choose|a: ServiceState, b: ServiceState, ys: Seq<Iq>|
        #![trigger observes(m, s, counter, n, a), processes(m, a, components(payload), ys, b)]
        {
            &&& observes(m, s, counter, n, a)
            &&& processes(m, a, components(payload), ys, b)
            &&& o == (PacketOutcome {
                samples_in: n as usize,
                samples_out: ys.len() as usize,
                gap: gap_record(s, counter),
                malformed: false,
            })
            &&& t == (ServiceState {
                samples_in: s.samples_in + n,
                metrics: b.metrics.received().counted(n as u64, ys.len() as u64),
                ..b
            })
        };
    assert(components(payload).len() / 2 == n);
    lemma_observes_sound(m, s, counter, n, a);
    lemma_processes_sound(m, a, components(payload), ys, b);
    if t.discontinuities.len() == s.discontinuities.len() {
        lemma_sends_compose(m, s, a, b);
    }
}

/// Going on in order is being in order.
proof fn lemma_sends_compose<M: ServiceMath>(m: M, s: ServiceState, u: ServiceState, t: ServiceState)
    requires
        sends_in_order(m, s, u),
        sends_in_order(m, u, t),
        u.cfg == s.cfg,
    ensures
        sends_in_order(m, s, t),
{
    let size = OUTPUT_PACKET_SAMPLES as int;
    let first = u.sent.len() - s.sent.len();
    assert forall|k: int| 0 <= k < t.sent.len() - s.sent.len() implies is_full_packet_at(
        m,
        s,
        s.unsent() + OUTPUT_PACKET_SAMPLES * k,
        #[trigger] t.sent[s.sent.len() + k],
    ) by {
        if k < first {
            assert(u.sent[s.sent.len() + k] == t.sent[s.sent.len() + k]);
        } else {
            let j = k - first;
            assert(t.sent[u.sent.len() + j] == t.sent[s.sent.len() + k]);
            assert(u.unsent() + size * j == s.unsent() + size * k);
        }
    }
}

proof fn lemma_feed_sound<M: ChainMath>(m: M, s: ServiceState, f: Feed, t: ServiceState)
    requires
        feeds(m, s, f, t),
        s.pending.len() < OUTPUT_PACKET_SAMPLES,
    ensures
        is_sound_feed(m, s, f.inputs(), t),
        f.inputs() >= 0,
{
    match f {
        Feed::Interleaved(interleaved) => {
            let ys = choose|ys: Seq<Iq>| #[trigger] processes(m, s, interleaved, ys, t);
            lemma_processes_sound(m, s, interleaved, ys, t);
        },
        Feed::Datagram(buf) => {
            let r = choose|r: Result<PacketOutcome, CounterOverflow>| #[trigger]
                digests(m, s, buf, r, t);
            if packet_fault(buf) is None {
                let (p, scaled) = choose|p: Packet, scaled: crate::ieee::Real64| #[trigger]
                    takes_at(m, s, p, scaled, r, t) && has_fields_of(p, buf) && seconds_gives(
                        m,
                        p.ts_int,
                        s.cfg.input_rate,
                        scaled,
                    );
                if let Ok(o) = r {
                    let counter = counter_value(scaled, p.ts_frac) as u64;
                    lemma_accepts_sound(m, s, p.payload@, counter, o, t);
                }
            }
        },
        Feed::Unframed => {},
    }
}

/// What a whole history keeps and counts.
proof fn lemma_history<M: ChainMath>(m: M, states: Seq<ServiceState>, fed: Seq<Feed>)
    requires
        is_history(m, states, fed),
        is_new(states[0]),
    ensures
        ({
            let s = states[0];
            let t = states.last();
            &&& t.cfg == s.cfg
            &&& t.plan == s.plan
            &&& 0 <= t.samples_in <= total_inputs(fed)
            &&& t.measure.len() <= t.emitted
            &&& t.pending.len() < OUTPUT_PACKET_SAMPLES
            &&& t.balanced()
            &&& carried(t.sent) + t.pending.len() == carried(s.sent) + t.emitted
            &&& t.discontinuities.len() == 0 ==> sends_in_order(m, s, t)
            &&& total_inputs(fed) < settling_of(s.plan) || t.emitted < MEASURE_BLOCK ==> same_gauges(
                s,
                t,
            )
        }),
    decreases fed.len(),
{
    if fed.len() > 0 {
        let n = fed.len() - 1;
        let fewer = states.drop_last();
        assert forall|k: int| 0 <= k < n implies #[trigger] feeds(
            m,
            fewer[k],
            fed.drop_last()[k],
            fewer[k + 1],
        ) by {
            assert(feeds(m, states[k], fed[k], states[k + 1]));
        }
        lemma_history(m, fewer, fed.drop_last());
        let u = states[n];
        assert(feeds(m, states[n], fed[n], states[n + 1]));
        lemma_feed_sound(m, u, fed[n], states[n + 1]);
        if states.last().discontinuities.len() == 0 {
            lemma_sends_compose(m, states[0], u, states.last());
        }
    }
}

/// No level and no offset is published before the filters have settled, nor
/// before a measurement block has filled: whatever a new service is fed, as long
/// as it is fewer than the settling samples in all, or gives fewer output samples
/// than a block in all, the gauges stay unset.
pub proof fn gauges_stay_unset_until_settled_and_filled<M: ChainMath>(
    m: M,
    states: Seq<ServiceState>,
    fed: Seq<Feed>,
)
    requires
        is_history(m, states, fed),
        is_new(states[0]),
        states[0].metrics.output_power_dbfs == GaugeState::unset(),
        states[0].metrics.peak_offset_hz == GaugeState::unset(),
        total_inputs(fed) < settling_of(states[0].plan) || states.last().emitted < MEASURE_BLOCK,
    ensures
        states.last().metrics.output_power_dbfs == GaugeState::unset(),
        states.last().metrics.peak_offset_hz == GaugeState::unset(),
        states.last().metrics.output_power_dbfs.value.nan(),
        states.last().metrics.peak_offset_hz.value.nan(),
{
    lemma_history(m, states, fed);
}

/// Output packets are bounded and contiguous since creation: without a gap, the
/// `j`-th packet that a new service sends is full and stamped with index `j`
/// times the packet size, and less than one packet is pending.
pub proof fn packets_are_contiguous_since_creation<M: ChainMath>(
    m: M,
    states: Seq<ServiceState>,
    fed: Seq<Feed>,
    j: int,
)
    requires
        is_history(m, states, fed),
        is_new(states[0]),
        states.last().discontinuities.len() == 0,
        0 <= j < states.last().sent.len() - states[0].sent.len(),
    ensures
        is_full_packet_at(
            m,
            states[0],
            OUTPUT_PACKET_SAMPLES * j,
            states.last().sent[states[0].sent.len() + j],
        ),
        states.last().pending.len() < OUTPUT_PACKET_SAMPLES,
        states.last().emitted == OUTPUT_PACKET_SAMPLES * (states.last().sent.len()
            - states[0].sent.len()) + states.last().pending.len(),
{
    lemma_history(m, states, fed);
    assert(states[0].unsent() == 0);
}

/// The output timeline is made of samples and holes: whatever a new service has
/// been fed, the index of the next output sample is the number of samples emitted
/// plus the holes of all the gaps seen.
pub proof fn the_timeline_is_samples_and_holes<M: ChainMath>(
    m: M,
    states: Seq<ServiceState>,
    fed: Seq<Feed>,
)
    requires
        is_history(m, states, fed),
        is_new(states[0]),
    ensures
        states.last().balanced(),
        states.last().discontinuities.len() == 0 ==> states.last().samples_out
            == states.last().emitted,
{
    lemma_history(m, states, fed);
}

/// Feeding `f` is feeding a well-formed packet that is taken.
pub open spec fn is_taken<M: ChainMath>(m: M, s: ServiceState, f: Feed, t: ServiceState) -> bool {
    f matches Feed::Datagram(buf) && packet_fault(buf) is None && exists|o: PacketOutcome| #[trigger]
        digests(m, s, buf, Ok(o), t)
}

/// The accounting of a run of well-formed packets without a gap.
proof fn lemma_run<M: ChainMath>(m: M, states: Seq<ServiceState>, fed: Seq<Feed>)
    requires
        is_history(m, states, fed),
        is_new(states[0]),
        states[0].chan.valid(),
        period(states[0].chan.stages) == factor_product(states[0].plan),
        position(states[0].chan.stages) == 0,
        forall|k: int| 0 <= k < fed.len() ==> is_taken(m, states[k], #[trigger] fed[k], states[k + 1]),
        states.last().discontinuities.len() == 0,
    ensures
        ({
            let t = states.last();
            &&& t.plan == states[0].plan
            &&& t.samples_in == total_inputs(fed)
            &&& t.samples_out * factor_product(t.plan) + position(t.chan.stages) == total_inputs(fed)
            &&& t.chan.valid()
            &&& period(t.chan.stages) == factor_product(t.plan)
        }),
    decreases fed.len(),
{
    if fed.len() == 0 {
        assert(0 * factor_product(states[0].plan) == 0) by (nonlinear_arith);
    } else {
        let n = fed.len() - 1;
        let fewer = states.drop_last();
        let u = states[n];
        let t = states.last();
        assert forall|k: int| 0 <= k < n implies #[trigger] feeds(
            m,
            fewer[k],
            fed.drop_last()[k],
            fewer[k + 1],
        ) by {
            assert(feeds(m, states[k], fed[k], states[k + 1]));
        }
        assert forall|k: int| 0 <= k < n implies is_taken(
            m,
            fewer[k],
            #[trigger] fed.drop_last()[k],
            fewer[k + 1],
        ) by {
            assert(is_taken(m, states[k], fed[k], states[k + 1]));
        }
        lemma_history(m, fewer, fed.drop_last());
        assert(feeds(m, states[n], fed[n], states[n + 1]));
        lemma_feed_sound(m, u, fed[n], t);
        lemma_run(m, fewer, fed.drop_last());
        assert(is_taken(m, states[n], fed[n], states[n + 1]));
        let buf = fed[n]->Datagram_0;
        let o = choose|o: PacketOutcome| #[trigger] digests(m, u, buf, Ok(o), t);
        let r = Ok::<PacketOutcome, CounterOverflow>(o);
        assert(takes(m, u, buf, r, t));
        let (p, scaled) = choose|p: Packet, scaled: crate::ieee::Real64| #[trigger]
            takes_at(m, u, p, scaled, r, t) && has_fields_of(p, buf) && seconds_gives(
                m,
                p.ts_int,
                u.cfg.input_rate,
                scaled,
            );
        let counter = counter_value(scaled, p.ts_frac) as u64;
        lemma_accepts_sound(m, u, p.payload@, counter, o, t);
        decimation_accounts_for_every_sample(m, u, p.payload@, counter, o, t);
    }
}

/// A whole run is accounted for: a new service that is fed well-formed packets
/// without a gap, and then finished, reports all the input samples, one output
/// sample for each time that the decimation is completed, and has sent packets
/// that carry just as many: nothing is lost, and nothing sent twice.
pub proof fn a_whole_run_is_accounted_for<M: ChainMath>(
    m: M,
    states: Seq<ServiceState>,
    fed: Seq<Feed>,
    r: Report,
    sent: Seq<SentPacket>,
    dropped: u64,
)
    requires
        is_history(m, states, fed),
        is_new(states[0]),
        states[0].chan.valid(),
        period(states[0].chan.stages) == factor_product(states[0].plan),
        position(states[0].chan.stages) == 0,
        forall|k: int| 0 <= k < fed.len() ==> is_taken(m, states[k], #[trigger] fed[k], states[k + 1]),
        states.last().discontinuities.len() == 0,
        finishes(m, states.last(), r, sent, dropped),
    ensures
        r.samples_in == total_inputs(fed),
        r.decimation == factor_product(states[0].plan),
        r.samples_out == total_inputs(fed) / (r.decimation as int),
        carried(sent) == carried(states[0].sent) + r.samples_out,
        r.discontinuities@.len() == 0,
{
    let t = states.last();
    lemma_run(m, states, fed);
    lemma_history(m, states, fed);
    let cut = choose|cut: ServiceState| #[trigger]
        flushes(m, t, cut) && is_report(cut.mirrored(), r) && sent == cut.sent && dropped
            == cut.dropped;
    lemma_flush_carries(m, t, cut);
    position_is_below_period(t.chan.stages);
    let d = factor_product(t.plan) as int;
    assert(holes(t.discontinuities, factor_product(t.plan)) == 0);
    vstd::arithmetic::div_mod::lemma_fundamental_div_mod_converse(
        total_inputs(fed),
        d,
        t.samples_out,
        position(t.chan.stages) as int,
    );
}

} // verus!

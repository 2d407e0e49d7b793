//! The channelizer pipeline: wideband packets in, narrowband packets out.
//!
//! Per input packet the service parses strictly, tracks the sample counter for
//! loss, mixes the channel to the centre, decimates, and re-frames the
//! narrowband samples. Three behaviours are deliberate:
//!
//! * A gap in the input advances the output timeline, so that the loss shows as
//!   a hole instead of a splice.
//! * Level and offset are not published until the filters have settled.
//! * A malformed packet is counted, not fatal.

use vstd::prelude::*;
use crate::config::{ChannelConfig, ChannelMath};
#[allow(unused_imports)]
use crate::config::{is_passband, is_request};
use crate::dsp::decimator::{total_decimation, total_settling, Channelizer};
#[allow(unused_imports)]
use crate::dsp::decimator::{buildable, channelizes, is_buildable, is_fresh_stage, period, position, settling_of, ChannelState};
use crate::dsp::fft::FftMath;
use crate::dsp::filter::FilterMath;
use crate::dsp::fir::FilterDesignMath;
use crate::dsp::gaps::{GapMarker, GapTracker};
#[allow(unused_imports)]
use crate::dsp::gaps::Continuity;
use crate::dsp::iq::{iq_to_sc16, power_dbfs, Iq, LevelMath};
#[allow(unused_imports)]
use crate::dsp::iq::{interleaved_sc16, is_power_dbfs};
use crate::dsp::nco::OscillatorMath;
#[allow(unused_imports)]
use crate::dsp::nco::is_initial;
use crate::dsp::plan::{PlanError, PlanMath, StagePlan};
#[allow(unused_imports)]
use crate::dsp::plan::{factor_product, is_planned, planned, PlanRequest};
use crate::dsp::tone::{estimate_frequency_keeping_dc, ToneMath};
#[allow(unused_imports)]
use crate::dsp::tone::is_estimate;
use crate::ieee::{Real32, Real64};
use crate::metrics::{GaugeText, Metrics};
#[allow(unused_imports)]
use crate::metrics::{gauge_text_gives, GaugeState, MetricsState};
use crate::vita49::packet::{parse, Packet, TimestampMath};
#[allow(unused_imports)]
use crate::vita49::packet::{components, counter_value, has_fields_of, packet_fault, seconds_gives};
use super::output::OutputSink;
#[allow(unused_imports)]
use super::output::SentPacket;

verus! {

/// Output samples accumulated before a narrowband packet is sent.
pub const OUTPUT_PACKET_SAMPLES: usize = 1024;

/// Output samples accumulated before level and offset are measured.
pub const MEASURE_BLOCK: usize = 4096;

/// Floating-point arithmetic of the service itself.
pub trait ServiceMath {
    /// `first / rate`.
    fn output_time(&self, first: u64, rate: Real64) -> Real64;

    /// `v` rounded to single precision.
    fn narrow(&self, v: Real64) -> Real32;
}

/// All floating-point arithmetic that the pipeline needs.
pub trait ChainMath:
    TimestampMath + OscillatorMath + FilterMath + LevelMath + ToneMath + FftMath + GaugeText + ServiceMath
{

}

/// `ts` is what `m` gives for the time of output sample `first`.
pub open spec fn output_time_gives<M: ServiceMath>(m: M, first: u64, rate: Real64, ts: Real64) -> bool {
    call_ensures(M::output_time, (&m, first, rate), ts)
}

/// `w` is what `m` gives for `v` in single precision.
pub open spec fn narrow_gives<M: ServiceMath>(m: M, v: Real64, w: Real32) -> bool {
    call_ensures(M::narrow, (&m, v), w)
}

/// A detected discontinuity in the input stream, placed on both timelines.
#[derive(Debug, Clone, Copy, PartialEq, Eq, Structural)]
pub struct GapRecord {
    /// Input sample counter at which the stream resumed.
    pub at_input_sample: u64,
    /// Input samples missing before it.
    pub missing_samples: u64,
    /// Output sample index at which the discontinuity was applied: the point of
    /// the narrowband timeline that must not be treated as continuous.
    pub at_output_sample: u64,
}

/// What one input packet produced.
#[derive(Debug, Clone, Copy, PartialEq, Eq, Default)]
pub struct PacketOutcome {
    /// Input samples that the packet carried.
    pub samples_in: usize,
    /// Output samples that came of them.
    pub samples_out: usize,
    /// Set when this packet revealed a discontinuity.
    pub gap: Option<GapRecord>,
    /// Set when the packet could not be parsed.
    pub malformed: bool,
}

/// A counter of the service would no longer fit in 64 bits.
#[derive(Debug, Clone, Copy, PartialEq, Eq, Structural)]
pub struct CounterOverflow;

/// Result of a run.
#[derive(Debug)]
pub struct Report {
    /// True only when every packet parsed, none were lost downstream, and the
    /// input stream had no discontinuity.
    pub ok: bool,
    /// Packets that were processed.
    pub packets_received: u64,
    /// Packets that could not be parsed.
    pub malformed_packets: u64,
    /// Packets that the sink dropped.
    pub packets_dropped: u64,
    /// Forward discontinuities of the input.
    pub seq_gaps: u64,
    /// Samples lost to them.
    pub gap_samples: u64,
    /// Input samples.
    pub samples_in: u64,
    /// Length of the output timeline: output samples, holes included.
    pub samples_out: u64,
    /// Rate of the input.
    pub input_rate_hz: Real64,
    /// Rate of the output.
    pub output_rate_hz: Real64,
    /// Inputs per output.
    pub decimation: usize,
    /// Input samples before level and offset are meaningful.
    pub settling_samples: usize,
    /// Channel centre relative to the wideband centre.
    pub offset_hz: Real64,
    /// Half-width of the channel.
    pub passband_hz: Real64,
    /// Attenuation target.
    pub stopband_db: Real64,
    /// Level of the output, once it was measured.
    pub output_power_dbfs: Option<Real32>,
    /// Offset of the strongest component, once it was measured.
    pub peak_offset_hz: Option<Real32>,
    /// The discontinuities, in order.
    pub discontinuities: Vec<GapRecord>,
}

/// Configuration that the service needs beyond the stage plan.
#[derive(Debug, Clone, Copy, PartialEq, Eq, Structural)]
pub struct ServiceConfig {
    /// Rate of the input.
    pub input_rate: Real64,
    /// Rate of the output.
    pub output_rate: Real64,
    /// Channel centre relative to the wideband centre.
    pub offset_hz: Real64,
    /// Half-width of the channel.
    pub passband_hz: Real64,
    /// Attenuation target.
    pub stopband_db: Real64,
}

impl ServiceConfig {
    /// Derive the stage plan and the service configuration from a channel.
    pub fn from_channel<M: ChannelMath + PlanMath + FilterDesignMath>(
        channel: &ChannelConfig,
        input_rate: Real64,
        m: &M,
    ) -> (r: Result<(Vec<StagePlan>, ServiceConfig), PlanError>)
        ensures
            exists|req: PlanRequest| #[trigger]
                is_request(*m, *channel, input_rate, req) && match r {
                    Ok((plan, cfg)) => {
                        &&& is_planned(*m, req, Ok(plan@))
                        &&& cfg.input_rate == input_rate
                        &&& cfg.output_rate == channel.output_rate_hz
                        &&& cfg.offset_hz == channel.offset_hz
                        &&& is_passband(*m, *channel, cfg.passband_hz)
                        &&& cfg.stopband_db == channel.stopband_db
                    },
                    Err(e) => is_planned(*m, req, Err(e)),
                },
    {
        let planned_stages = channel.plan(input_rate, m);
        match planned_stages {
            Err(e) => {
                assert(planned(planned_stages) == Err::<Seq<StagePlan>, PlanError>(e));
                Err(e)
            },
            Ok(plan) => {
                let cfg = ServiceConfig {
                    input_rate,
                    output_rate: channel.output_rate_hz,
                    offset_hz: channel.offset_hz,
                    passband_hz: channel.passband(m),
                    stopband_db: channel.stopband_db,
                };
                assert(planned(planned_stages) == Ok::<Seq<StagePlan>, PlanError>(plan@));
                Ok((plan, cfg))
            },
        }
    }
}

/// A plan that a service can run: buildable, and small enough that its
/// decimation and its settling time can be counted.
pub open spec fn deployable(plan: Seq<StagePlan>) -> bool {
    &&& buildable(plan)
    &&& factor_product(plan) <= usize::MAX
    &&& settling_of(plan) <= usize::MAX
}

/// Whether a service can run `plan`.
pub fn is_deployable(plan: &Vec<StagePlan>) -> (r: bool)
    ensures
        r == deployable(plan@),
{
    if !is_buildable(plan) {
        return false;
    }
    total_decimation(plan).is_some() && total_settling(plan).is_some()
}

/// The state of a service.
#[verifier::ext_equal]
pub struct ServiceState {
    /// Configuration.
    pub cfg: ServiceConfig,
    /// Stage plan.
    pub plan: Seq<StagePlan>,
    /// Mixer and filters.
    pub chan: ChannelState,
    /// Continuity of the input.
    pub gaps: Continuity,
    /// Input samples of all packets so far.
    pub samples_in: int,
    /// Output samples produced so far.
    pub emitted: int,
    /// Index of the next output sample on the output timeline, where gaps leave
    /// holes.
    pub samples_out: int,
    /// Packets that could not be parsed.
    pub malformed: int,
    /// The discontinuities, in order.
    pub discontinuities: Seq<GapRecord>,
    /// Output samples that wait for their packet to fill.
    pub pending: Seq<Iq>,
    /// Packets handed to the sink.
    pub sent: Seq<SentPacket>,
    /// Packets that the sink has dropped.
    pub dropped: u64,
    /// Drops already counted in the metrics.
    pub seen: u64,
    /// Output samples that wait for a measurement.
    pub measure: Seq<Iq>,
    /// Counters and gauges.
    pub metrics: MetricsState,
}

/// `p` is the packet for output samples `iq`, the first of which has index
/// `first`.
pub open spec fn is_output_packet<M: ServiceMath>(
    m: M,
    rate: Real64,
    iq: Seq<Iq>,
    first: int,
    p: SentPacket,
) -> bool {
    &&& p.samples == interleaved_sc16(iq)
    &&& p.rate == rate
    &&& output_time_gives(m, first as u64, rate, p.ts)
}

/// Output samples that `missing` input samples leave out: their number over the
/// decimation, rounded up.
pub open spec fn hole_of(missing: u64, decimation: nat) -> int {
    (missing + decimation - 1) / (decimation as int)
}

/// Output samples that all of the recorded discontinuities leave out.
pub open spec fn holes(records: Seq<GapRecord>, decimation: nat) -> int
    decreases records.len(),
{
    if records.len() == 0 {
        0
    } else {
        holes(records.drop_last(), decimation) + hole_of(records.last().missing_samples, decimation)
    }
}

impl ServiceState {
    /// The output timeline is made of the samples produced and the holes.
    pub open spec fn balanced(self) -> bool {
        self.samples_out == self.emitted + holes(self.discontinuities, factor_product(self.plan))
    }

    /// Index of the first output sample that has not been sent.
    pub open spec fn unsent(self) -> int {
        self.samples_out - self.pending.len()
    }

    /// The state with the sink's drops counted in the metrics.
    pub open spec fn mirrored(self) -> ServiceState {
        if self.dropped > self.seen {
            ServiceState {
                seen: self.dropped,
                metrics: self.metrics.dropped((self.dropped - self.seen) as u64),
                ..self
            }
        } else {
            self
        }
    }

    /// Output samples that `n` further input samples give.
    pub open spec fn outputs_of(self, n: int) -> int {
        (position(self.chan.stages) + n) / (factor_product(self.plan) as int)
    }

    /// Output samples that a gap before `counter` leaves out.
    pub open spec fn hole_before(self, counter: u64) -> int {
        match self.gaps.gap_before(counter) {
            Some(marker) => hole_of(marker.missing_samples, factor_product(self.plan)),
            None => 0,
        }
    }

    /// All counters fit after a packet of `n` samples starting at `counter`.
    pub open spec fn has_room(self, counter: u64, n: int) -> bool {
        &&& self.gaps.after(counter, n as u64).countable()
        &&& self.samples_in + n <= u64::MAX
        &&& self.samples_out + self.hole_before(counter) + self.outputs_of(n) <= u64::MAX
    }
}

/// Sending what is pending takes `s` to `t`: one packet if anything is pending,
/// nothing otherwise.
pub open spec fn flushes<M: ServiceMath>(m: M, s: ServiceState, t: ServiceState) -> bool {
    if s.pending.len() == 0 {
        t == s
    } else {
        exists|p: SentPacket| #[trigger]
            is_output_packet(m, s.cfg.output_rate, s.pending, s.unsent(), p) && t.dropped
                >= s.dropped && t == (ServiceState {
                pending: Seq::empty(),
                sent: s.sent.push(p),
                dropped: t.dropped,
                ..s
            }).mirrored()
    }
}

/// Producing the output samples `ys` takes `s` to `t`: whenever a packet's worth
/// has accumulated it is sent, each packet stamped with the index of its first
/// sample, and what does not fill a packet stays pending.
pub open spec fn emits<M: ServiceMath>(m: M, s: ServiceState, ys: Seq<Iq>, t: ServiceState) -> bool {
    let all = s.pending + ys;
    let n = all.len() / (OUTPUT_PACKET_SAMPLES as nat);
    &&& t.emitted == s.emitted + ys.len()
    &&& t.samples_out == s.samples_out + ys.len()
    &&& t.pending == all.skip(OUTPUT_PACKET_SAMPLES * n)
    &&& t.sent.len() == s.sent.len() + n
    &&& s.sent.is_prefix_of(t.sent)
    &&& forall|k: int|
        0 <= k < n ==> is_output_packet(
            m,
            s.cfg.output_rate,
            all.subrange(OUTPUT_PACKET_SAMPLES * k, OUTPUT_PACKET_SAMPLES * k + OUTPUT_PACKET_SAMPLES),
            s.unsent() + OUTPUT_PACKET_SAMPLES * k,
            #[trigger] t.sent[s.sent.len() + k],
        )
    &&& t.dropped >= s.dropped
    &&& t.seen == if n > 0 {
        t.dropped
    } else {
        s.seen
    }
    &&& n == 0 ==> t.dropped == s.dropped
    &&& t == (ServiceState {
        emitted: t.emitted,
        samples_out: t.samples_out,
        pending: t.pending,
        sent: t.sent,
        dropped: t.dropped,
        seen: t.seen,
        metrics: s.metrics.dropped((t.seen - s.seen) as u64),
        ..s
    })
}

/// Measuring `block` takes the gauges of `a` to those of `b`: a level that is no
/// finite number and an offset that could not be found leave theirs alone.
pub open spec fn publishes<M: ChainMath>(
    m: M,
    cfg: ServiceConfig,
    block: Seq<Iq>,
    a: MetricsState,
    b: MetricsState,
) -> bool {
    exists|power: Real32, offset: Option<Real64>|
        #![trigger is_power_dbfs(m, block, power), is_estimate(m, block, true, cfg.output_rate, cfg.passband_hz.negation(), cfg.passband_hz, offset)]
        {
            &&& is_power_dbfs(m, block, power)
            &&& is_estimate(
                m,
                block,
                true,
                cfg.output_rate,
                cfg.passband_hz.negation(),
                cfg.passband_hz,
                offset,
            )
            &&& b == (MetricsState {
                output_power_dbfs: b.output_power_dbfs,
                peak_offset_hz: b.peak_offset_hz,
                ..a
            })
            &&& if power.finite() {
                b.output_power_dbfs.value == power && gauge_text_gives(
                    m,
                    power,
                    b.output_power_dbfs.text,
                )
            } else {
                b.output_power_dbfs == a.output_power_dbfs
            }
            &&& match offset {
                Some(f) => narrow_gives(m, f, b.peak_offset_hz.value) && gauge_text_gives(
                    m,
                    b.peak_offset_hz.value,
                    b.peak_offset_hz.text,
                ),
                None => b.peak_offset_hz == a.peak_offset_hz,
            }
        }
}

/// Measuring the output samples `ys` of `n` input samples takes `s` to `t`:
/// nothing before the filters have settled, and after that block by block.
pub open spec fn measures<M: ChainMath>(
    m: M,
    s: ServiceState,
    n: int,
    ys: Seq<Iq>,
    t: ServiceState,
) -> bool {
    let block = s.measure + ys;
    if s.samples_in + n < settling_of(s.plan) {
        t == s
    } else if block.len() < MEASURE_BLOCK {
        t == (ServiceState { measure: block, ..s })
    } else {
        &&& publishes(m, s.cfg, block, s.metrics, t.metrics)
        &&& t == (ServiceState { measure: Seq::empty(), metrics: t.metrics, ..s })
    }
}

/// Running interleaved components through the pipeline takes `s` to `t` and
/// produces `ys`.
pub open spec fn processes<M: ChainMath>(
    m: M,
    s: ServiceState,
    interleaved: Seq<i16>,
    ys: Seq<Iq>,
    t: ServiceState,
) -> bool {
    exists|mid: ServiceState| #[trigger]
        measures(m, mid, (interleaved.len() / 2) as int, ys, t) && channelizes(
            m,
            s.chan,
            interleaved,
            mid.chan,
            ys,
        ) && emits(m, ServiceState { chan: mid.chan, ..s }, ys, mid)
}

/// The record of a gap, on both timelines.
pub open spec fn gap_record(s: ServiceState, counter: u64) -> Option<GapRecord> {
    match s.gaps.gap_before(counter) {
        Some(marker) => Some(
            GapRecord {
                at_input_sample: marker.at_sample,
                missing_samples: marker.missing_samples,
                at_output_sample: (s.samples_out + s.hole_before(counter)) as u64,
            },
        ),
        None => None,
    }
}

/// Observing a packet of `n` samples that starts at `counter` takes `s` to `t`:
/// a gap closes the pending packet, moves the output timeline on by the hole,
/// and is recorded.
pub open spec fn observes<M: ServiceMath>(
    m: M,
    s: ServiceState,
    counter: u64,
    n: int,
    t: ServiceState,
) -> bool {
    let seen = ServiceState { gaps: s.gaps.after(counter, n as u64), ..s };
    match s.gaps.gap_before(counter) {
        None => t == seen,
        Some(marker) => exists|cut: ServiceState| #[trigger]
            flushes(m, seen, cut) && t == (ServiceState {
                samples_out: s.samples_out + s.hole_before(counter),
                metrics: cut.metrics.gap(marker.missing_samples),
                discontinuities: s.discontinuities.push(gap_record(s, counter).unwrap()),
                ..cut
            }),
    }
}

/// A packet with the given payload that starts at `counter` takes `s` to `t` with
/// outcome `o`.
pub open spec fn accepts<M: ChainMath>(
    m: M,
    s: ServiceState,
    payload: Seq<u8>,
    counter: u64,
    o: PacketOutcome,
    t: ServiceState,
) -> bool {
    let n = (payload.len() / 4) as int;
    exists|a: ServiceState, b: ServiceState, ys: Seq<Iq>|
        #![trigger observes(m, s, counter, n, a), processes(m, a, components(payload), ys, b)]
        {
            &&& observes(m, s, counter, n, a)
            &&& processes(m, a, components(payload), ys, b)
            &&& o == (PacketOutcome {
                samples_in: n as usize,
                samples_out: ys.len() as usize,
                gap: gap_record(s, counter),
                malformed: false,
            })
            &&& t == (ServiceState {
                samples_in: s.samples_in + n,
                metrics: b.metrics.received().counted(n as u64, ys.len() as u64),
                ..b
            })
        }
}

/// The channelizer pipeline.
pub struct ChannelizerService<S: OutputSink> {
    channelizer: Channelizer,
    cfg: ServiceConfig,
    sink: S,
    metrics: Metrics,
    gap_tracker: GapTracker,
    samples_in_total: u64,
    samples_emitted: u64,
    samples_out_total: u64,
    malformed: u64,
    discontinuities: Vec<GapRecord>,
    out_packet: Vec<Iq>,
    out_packet_first: u64,
    measure: Vec<Iq>,
    sink_dropped_seen: u64,
}

impl<S: OutputSink> ChannelizerService<S> {
    /// The state that contracts speak of.
    pub closed spec fn state(&self) -> ServiceState {
        ServiceState {
            cfg: self.cfg,
            plan: self.channelizer.plan_view(),
            chan: self.channelizer.state(),
            gaps: self.gap_tracker.state(),
            samples_in: self.samples_in_total as int,
            emitted: self.samples_emitted as int,
            samples_out: self.samples_out_total as int,
            malformed: self.malformed as int,
            discontinuities: self.discontinuities@,
            pending: self.out_packet@,
            sent: self.sink.sent(),
            dropped: self.sink.dropped(),
            seen: self.sink_dropped_seen,
            measure: self.measure@,
            metrics: self.metrics.state(),
        }
    }

    /// Pending samples make no full packet and end at the output index; a
    /// measurement block is not full; no more drops are counted than happened; the
    /// output timeline is made of samples and holes.
    pub closed spec fn well_formed(&self) -> bool {
        &&& self.channelizer.well_formed()
        &&& deployable(self.channelizer.plan_view())
        &&& self.out_packet@.len() < OUTPUT_PACKET_SAMPLES
        &&& self.out_packet@.len() <= self.samples_out_total
        &&& self.out_packet@.len() > 0 ==> self.out_packet_first + self.out_packet@.len()
            == self.samples_out_total
        &&& self.measure@.len() < MEASURE_BLOCK
        &&& self.sink_dropped_seen <= self.sink.dropped()
        &&& self.state().balanced()
    }

    /// What is true of every well-formed service.
    pub proof fn lemma_well_formed(&self)
        requires
            self.well_formed(),
        ensures
            self.state().chan.valid(),
            deployable(self.state().plan),
            period(self.state().chan.stages) == factor_product(self.state().plan),
            self.state().pending.len() < OUTPUT_PACKET_SAMPLES,
            self.state().pending.len() <= self.state().samples_out <= u64::MAX,
            self.state().measure.len() < MEASURE_BLOCK,
            self.state().seen <= self.state().dropped,
            0 <= self.state().samples_in <= u64::MAX,
            0 <= self.state().malformed <= u64::MAX,
            0 <= self.state().emitted <= self.state().samples_out,
            self.state().balanced(),
    {
        self.channelizer.lemma_well_formed();
        position_bound(self.state());
        lemma_holes_nonnegative(self.state().discontinuities, factor_product(self.state().plan));
    }

    /// Build the service from a stage plan and channel parameters.
    pub fn new<M: OscillatorMath + FilterDesignMath>(
        plan: Vec<StagePlan>,
        cfg: ServiceConfig,
        sink: S,
        metrics: Metrics,
        m: &M,
    ) -> (svc: Self)
        requires
            deployable(plan@),
        ensures
            svc.well_formed(),
            is_initial(*m, cfg.offset_hz, cfg.input_rate, svc.state().chan.osc),
            svc.state().chan.stages.len() == plan@.len(),
            forall|k: int|
                0 <= k < plan@.len() ==> is_fresh_stage(
                    *m,
                    plan@[k],
                    cfg.stopband_db,
                    #[trigger] svc.state().chan.stages[k],
                ),
            position(svc.state().chan.stages) == 0,
            svc.state() == (ServiceState {
                cfg,
                plan: plan@,
                chan: svc.state().chan,
                gaps: Continuity::start(),
                samples_in: 0,
                emitted: 0,
                samples_out: 0,
                malformed: 0,
                discontinuities: Seq::empty(),
                pending: Seq::empty(),
                sent: sink.sent(),
                dropped: sink.dropped(),
                seen: 0,
                measure: Seq::empty(),
                metrics: metrics.state(),
            }),
    {
        let channelizer = Channelizer::new(plan, cfg.offset_hz, cfg.input_rate, cfg.stopband_db, m);
        ChannelizerService {
            channelizer,
            cfg,
            sink,
            metrics,
            gap_tracker: GapTracker::new(),
            samples_in_total: 0,
            samples_emitted: 0,
            samples_out_total: 0,
            malformed: 0,
            discontinuities: Vec::new(),
            out_packet: Vec::new(),
            out_packet_first: 0,
            measure: Vec::new(),
            sink_dropped_seen: 0,
        }
    }

    /// Input samples that the filters need before their output is steady state.
    pub fn settling_samples(&self) -> (n: usize)
        requires
            self.well_formed(),
        ensures
            n == settling_of(self.state().plan),
    {
        self.channelizer.settling_samples()
    }

    /// Record a packet that could not even be framed, or placed in the stream.
    ///
    /// A framing fault in a file thereby counts exactly as a malformed datagram
    /// does.
    pub fn note_malformed(&mut self)
        requires
            old(self).well_formed(),
            old(self).state().malformed < u64::MAX,
        ensures
            final(self).well_formed(),
            final(self).state() == (ServiceState {
                malformed: old(self).state().malformed + 1,
                ..old(self).state()
            }),
    {
        self.malformed = self.malformed + 1;
    }

    /// Count in the metrics what the sink has dropped since the last time.
    fn mirror_drops(&mut self) -> (dropped: u64)
        requires
            old(self).well_formed(),
        ensures
            final(self).well_formed(),
            final(self).state() == old(self).state().mirrored(),
            dropped == old(self).state().dropped,
    {
        let dropped: u64 = self.sink.dropped_packets();
        if dropped > self.sink_dropped_seen {
            self.metrics.record_packets_dropped(dropped - self.sink_dropped_seen);
            self.sink_dropped_seen = dropped;
        }
        dropped
    }

    /// Send what is pending.
    fn flush_output_packet<M: ServiceMath>(&mut self, m: &M)
        requires
            old(self).channelizer.well_formed(),
            deployable(old(self).channelizer.plan_view()),
            old(self).out_packet@.len() <= OUTPUT_PACKET_SAMPLES,
            old(self).out_packet@.len() <= old(self).samples_out_total,
            old(self).out_packet@.len() > 0 ==> old(self).out_packet_first + old(
                self,
            ).out_packet@.len() == old(self).samples_out_total,
            old(self).measure@.len() < MEASURE_BLOCK,
            old(self).sink_dropped_seen <= old(self).sink.dropped(),
            old(self).state().balanced(),
        ensures
            final(self).well_formed(),
            flushes(*m, old(self).state(), final(self).state()),
    {
        if self.out_packet.len() == 0 {
            return;
        }
        let ghost before = self.state();
        let sc16 = iq_to_sc16(self.out_packet.as_slice());
        let ts = m.output_time(self.out_packet_first, self.cfg.output_rate);
        self.sink.send(sc16.as_slice(), ts, self.cfg.output_rate);
        self.out_packet.clear();
        self.out_packet_first = self.samples_out_total;
        let ghost p = SentPacket { samples: sc16@, ts, rate: before.cfg.output_rate };
        let ghost mid = self.state();
        assert(mid.sent == before.sent.push(p));
        self.mirror_drops();
        proof {
            assert(is_output_packet(*m, before.cfg.output_rate, before.pending, before.unsent(), p));
            assert(mid =~= (ServiceState {
                pending: Seq::empty(),
                sent: before.sent.push(p),
                dropped: mid.dropped,
                ..before
            }));
        }
    }

    /// Append one output sample, sending the packet that it completes.
    fn push_output<M: ServiceMath>(&mut self, y: Iq, m: &M)
        requires
            old(self).well_formed(),
            old(self).state().samples_out < u64::MAX,
        ensures
            final(self).well_formed(),
            emits(*m, old(self).state(), seq![y], final(self).state()),
    {
        let ghost before = self.state();
        proof {
            self.lemma_well_formed();
        }
        if self.out_packet.len() == 0 {
            self.out_packet_first = self.samples_out_total;
        }
        self.out_packet.push(y);
        self.samples_emitted = self.samples_emitted + 1;
        self.samples_out_total = self.samples_out_total + 1;
        let ghost all = before.pending + seq![y];
        assert(self.out_packet@ =~= all);
        let ghost mid = self.state();
        if self.out_packet.len() >= OUTPUT_PACKET_SAMPLES {
            self.flush_output_packet(m);
            proof {
                assert(all.len() == OUTPUT_PACKET_SAMPLES);
                assert(all.subrange(0, OUTPUT_PACKET_SAMPLES as int) =~= all);
                assert(all.skip(OUTPUT_PACKET_SAMPLES as int) =~= Seq::empty());
                let t = self.state();
                let p = choose|p: SentPacket| #[trigger]
                    is_output_packet(*m, mid.cfg.output_rate, mid.pending, mid.unsent(), p)
                        && t.dropped >= mid.dropped && t == (ServiceState {
                        pending: Seq::empty(),
                        sent: mid.sent.push(p),
                        dropped: t.dropped,
                        ..mid
                    }).mirrored();
                lemma_no_drops(before.metrics);
                assert(t.sent =~= before.sent.push(p));
                assert(t.sent[before.sent.len() + 0int] == p);
                assert(emits(*m, before, seq![y], t));
            }
        } else {
            proof {
                assert(all.len() / (OUTPUT_PACKET_SAMPLES as nat) == 0);
                assert(all.skip(0) =~= all);
                lemma_no_drops(before.metrics);
                assert(emits(*m, before, seq![y], self.state()));
            }
        }
    }

    /// Measure the collected block and publish what was found.
    fn publish_measurements<M: ChainMath>(&mut self, m: &M)
        requires
            8 * old(self).measure@.len() <= usize::MAX,
        ensures
            publishes(
                *m,
                old(self).state().cfg,
                old(self).state().measure,
                old(self).state().metrics,
                final(self).state().metrics,
            ),
            final(self).state() == (ServiceState {
                measure: Seq::empty(),
                metrics: final(self).state().metrics,
                ..old(self).state()
            }),
            final(self).out_packet_first == old(self).out_packet_first,
            final(self).channelizer == old(self).channelizer,
            final(self).sink == old(self).sink,
    {
        let ghost before = self.state();
        let mut block: Vec<Iq> = Vec::new();
        core::mem::swap(&mut block, &mut self.measure);
        let power = power_dbfs(block.as_slice(), m);
        if power.is_finite() {
            self.metrics.set_output_power_dbfs(power, m);
        }
        let band = self.cfg.passband_hz;
        let offset = estimate_frequency_keeping_dc(
            block.as_slice(),
            self.cfg.output_rate,
            band.negated(),
            band,
            m,
        );
        if let Some(f) = offset {
            let v = m.narrow(f);
            assert(narrow_gives(*m, f, v));
            self.metrics.set_peak_offset_hz(v, m);
        }
        proof {
            assert(is_power_dbfs(*m, before.measure, power));
            assert(is_estimate(
                *m,
                before.measure,
                true,
                before.cfg.output_rate,
                before.cfg.passband_hz.negation(),
                before.cfg.passband_hz,
                offset,
            ));
            assert(publishes(*m, before.cfg, before.measure, before.metrics, self.state().metrics));
            assert(self.state() =~= (ServiceState {
                measure: Seq::empty(),
                metrics: self.state().metrics,
                ..before
            }));
        }
    }

    /// Feed interleaved sc16 components; returns how many output samples came of
    /// them.
    ///
    /// The length bound is one that every slice whose output fits in memory
    /// meets.
    pub fn process_interleaved<M: ChainMath>(&mut self, interleaved_sc16: &[i16], m: &M) -> (n: usize)
        requires
            old(self).well_formed(),
            old(self).state().samples_in + interleaved_sc16@.len() / 2 <= u64::MAX,
            old(self).state().samples_out + old(self).state().outputs_of(
                (interleaved_sc16@.len() / 2) as int,
            ) <= u64::MAX,
            8 * (MEASURE_BLOCK + interleaved_sc16@.len() / 2) <= usize::MAX,
        ensures
            final(self).well_formed(),
            n == old(self).state().outputs_of((interleaved_sc16@.len() / 2) as int),
            exists|ys: Seq<Iq>| #[trigger]
                processes(*m, old(self).state(), interleaved_sc16@, ys, final(self).state())
                    && ys.len() == n,
    {
        let ghost start = self.state();
        let ghost taken = (interleaved_sc16@.len() / 2) as int;
        let pairs: usize = interleaved_sc16.len() / 2;
        proof {
            self.channelizer.lemma_well_formed();
        }
        let mut produced: Vec<Iq> = Vec::new();
        self.channelizer.process(interleaved_sc16, &mut produced, m);
        let ghost fed = self.state();
        let ghost ys = produced@;
        proof {
            assert(produced@.skip(0) =~= produced@);
            position_bound(start);
            lemma_outputs_bounded(
                position(start.chan.stages) as int,
                taken,
                factor_product(start.plan) as int,
            );
            assert(fed =~= (ServiceState { chan: fed.chan, ..start }));
            assert(ys.take(0) =~= Seq::empty());
            lemma_emits_nothing(*m, fed);
        }
        let count: usize = produced.len();
        let mut k: usize = 0;
        while k < count
            invariant
                self.well_formed(),
                k <= count,
                count == produced@.len(),
                ys == produced@,
                fed.samples_out + count <= u64::MAX,
                fed.pending.len() < OUTPUT_PACKET_SAMPLES,
                fed.pending.len() <= fed.samples_out,
                fed.seen <= fed.dropped,
                emits(*m, fed, ys.take(k as int), self.state()),
            decreases count - k,
        {
            let ghost mid = self.state();
            self.push_output(produced[k], m);
            proof {
                emission_ignores_block_boundaries(
                    *m,
                    fed,
                    ys.take(k as int),
                    mid,
                    seq![ys[k as int]],
                    self.state(),
                );
                assert(ys.take(k as int) + seq![ys[k as int]] =~= ys.take(k + 1));
            }
            k = k + 1;
        }
        let ghost mid = self.state();
        assert(ys.take(count as int) =~= ys);
        // Level and offset are meaningless before the filters have settled.
        if self.samples_in_total + (pairs as u64) >= self.channelizer.settling_samples() as u64 {
            self.measure.extend_from_slice(produced.as_slice());
            assert(self.measure@ =~= mid.measure + ys);
            if self.measure.len() >= MEASURE_BLOCK {
                self.publish_measurements(m);
            } else {
                assert(self.state() =~= (ServiceState { measure: mid.measure + ys, ..mid }));
            }
        }
        proof {
            assert(measures(*m, mid, taken, ys, self.state()));
            assert(channelizes(*m, start.chan, interleaved_sc16@, mid.chan, ys));
            assert(processes(*m, start, interleaved_sc16@, ys, self.state()));
        }
        count
    }

    /// Handle a gap: close the pending packet, leave a hole in the output
    /// timeline, and record it.
    fn apply_gap<M: ServiceMath>(&mut self, marker: GapMarker, m: &M) -> (record: GapRecord)
        requires
            old(self).well_formed(),
            old(self).state().samples_out + hole_of(
                marker.missing_samples,
                factor_product(old(self).state().plan),
            ) <= u64::MAX,
        ensures
            final(self).well_formed(),
            ({
                let s = old(self).state();
                let hole = hole_of(marker.missing_samples, factor_product(s.plan));
                &&& record == (GapRecord {
                    at_input_sample: marker.at_sample,
                    missing_samples: marker.missing_samples,
                    at_output_sample: (s.samples_out + hole) as u64,
                })
                &&& exists|cut: ServiceState| #[trigger]
                    flushes(*m, s, cut) && final(self).state() == (ServiceState {
                        samples_out: s.samples_out + hole,
                        metrics: cut.metrics.gap(marker.missing_samples),
                        discontinuities: s.discontinuities.push(record),
                        ..cut
                    })
            }),
    {
        let ghost before = self.state();
        self.flush_output_packet(m);
        let ghost cut = self.state();
        let d: u64 = self.channelizer.decimation() as u64;
        let missing_out: u64 = div_ceil(marker.missing_samples, d);
        assert(cut.samples_out == before.samples_out);
        let at_output: u64 = self.samples_out_total + missing_out;
        let record = GapRecord {
            at_input_sample: marker.at_sample,
            missing_samples: marker.missing_samples,
            at_output_sample: at_output,
        };
        self.samples_out_total = at_output;
        self.metrics.record_gap(marker.missing_samples);
        self.discontinuities.push(record);
        proof {
            assert(flushes(*m, before, cut));
            assert(self.out_packet@.len() == 0);
            assert(before.discontinuities.push(record).drop_last() =~= before.discontinuities);
            assert(self.state() =~= (ServiceState {
                samples_out: at_output as int,
                metrics: cut.metrics.gap(marker.missing_samples),
                discontinuities: before.discontinuities.push(record),
                ..cut
            }));
        }
        record
    }

    /// Whether all counters fit after a packet of `n` samples starting at
    /// `counter`.
    fn can_accept(&self, counter: u64, n: usize) -> (r: bool)
        requires
            self.well_formed(),
            n <= 65536,
        ensures
            r == self.state().has_room(counter, n as int),
    {
        proof {
            self.channelizer.lemma_well_formed();
        }
        let d: usize = self.channelizer.decimation();
        let pos: usize = self.channelizer.pending_inputs();
        let hole: u64 = match self.gap_tracker.missing_before(counter) {
            Some(missing) => div_ceil(missing, d as u64),
            None => 0,
        };
        let more: u128 = (pos as u128 + n as u128) / (d as u128);
        proof {
            lemma_outputs_bounded(pos as int, n as int, d as int);
            assert(more == self.state().outputs_of(n as int));
            assert(hole == self.state().hole_before(counter));
        }
        self.gap_tracker.can_observe(counter) && self.samples_in_total as u128 + n as u128
            <= u64::MAX as u128 && self.samples_out_total as u128 + hole as u128 + more
            <= u64::MAX as u128
    }

    /// Feed one parsed packet whose first sample stands at `counter`.
    ///
    /// Fails, changing nothing, when a counter would no longer fit.
    pub fn process_packet<M: ChainMath>(&mut self, packet: &Packet, counter: u64, m: &M) -> (r: Result<
        PacketOutcome,
        CounterOverflow,
    >)
        requires
            old(self).well_formed(),
            packet.payload@.len() <= 262144,
        ensures
            final(self).well_formed(),
            match r {
                Ok(o) => old(self).state().has_room(counter, (packet.payload@.len() / 4) as int)
                    && accepts(
                    *m,
                    old(self).state(),
                    packet.payload@,
                    counter,
                    o,
                    final(self).state(),
                ),
                Err(_) => !old(self).state().has_room(counter, (packet.payload@.len() / 4) as int)
                    && final(self).state() == old(self).state(),
            },
    {
        let ghost s = self.state();
        let samples_in: usize = packet.samples();
        if !self.can_accept(counter, samples_in) {
            return Err(CounterOverflow);
        }
        proof {
            self.lemma_well_formed();
            position_bound(s);
            lemma_outputs_bounded(
                position(s.chan.stages) as int,
                samples_in as int,
                factor_product(s.plan) as int,
            );
        }
        let marker = self.gap_tracker.observe(counter, samples_in as u64);
        let ghost seen = self.state();
        assert(seen =~= (ServiceState { gaps: s.gaps.after(counter, samples_in as u64), ..s }));
        let gap: Option<GapRecord> = match marker {
            Some(g) => Some(self.apply_gap(g, m)),
            None => None,
        };
        let ghost a = self.state();
        proof {
            self.lemma_well_formed();
            assert(a.chan == s.chan);
            assert(gap == gap_record(s, counter));
            if let Some(g) = marker {
                let cut = choose|cut: ServiceState| #[trigger]
                    flushes(*m, seen, cut) && a == (ServiceState {
                        samples_out: seen.samples_out + s.hole_before(counter),
                        metrics: cut.metrics.gap(g.missing_samples),
                        discontinuities: seen.discontinuities.push(gap.unwrap()),
                        ..cut
                    });
                assert(flushes(*m, seen, cut));
            }
            assert(observes(*m, s, counter, samples_in as int, a));
        }
        let interleaved = packet.iq_i16();
        assert(interleaved@.len() / 2 == samples_in);
        let produced: usize = self.process_interleaved(interleaved.as_slice(), m);
        let ghost b = self.state();
        let ghost ys = choose|ys: Seq<Iq>| #[trigger]
            processes(*m, a, interleaved@, ys, b) && ys.len() == produced;
        self.metrics.record_packet_received();
        self.metrics.record_samples(samples_in as u64, produced as u64);
        proof {
            lemma_processes_keeps(*m, a, interleaved@, ys, b);
        }
        self.samples_in_total = self.samples_in_total + samples_in as u64;
        let o = PacketOutcome { samples_in, samples_out: produced, gap, malformed: false };
        proof {
            assert(processes(*m, a, components(packet.payload@), ys, b));
            assert(self.state() =~= (ServiceState {
                samples_in: s.samples_in + samples_in,
                metrics: b.metrics.received().counted(samples_in as u64, ys.len() as u64),
                ..b
            }));
            assert(accepts(*m, s, packet.payload@, counter, o, self.state()));
        }
        Ok(o)
    }

    /// Feed one raw datagram or file packet.
    ///
    /// A packet that does not parse is counted and otherwise ignored. Fails,
    /// changing nothing, when a counter would no longer fit.
    pub fn process_datagram<M: ChainMath>(&mut self, buf: &[u8], m: &M) -> (r: Result<
        PacketOutcome,
        CounterOverflow,
    >)
        requires
            old(self).well_formed(),
        ensures
            final(self).well_formed(),
            digests(*m, old(self).state(), buf@, r, final(self).state()),
    {
        let ghost s = self.state();
        let packet = match parse(buf) {
            Ok(p) => p,
            Err(_) => {
                if self.malformed == u64::MAX {
                    return Err(CounterOverflow);
                }
                self.note_malformed();
                return Ok(
                    PacketOutcome { samples_in: 0, samples_out: 0, gap: None, malformed: true },
                );
            },
        };
        assert(has_fields_of(packet, buf@));
        let scaled = m.seconds_in_samples(packet.ts_int, self.cfg.input_rate);
        assert(seconds_gives(*m, packet.ts_int, s.cfg.input_rate, scaled));
        match packet.sample_counter_from(scaled) {
            Some(counter) => {
                let r = self.process_packet(&packet, counter, m);
                assert(takes_at(*m, s, packet, scaled, r, self.state()));
                r
            },
            None => {
                let r = Err(CounterOverflow);
                assert(takes_at(*m, s, packet, scaled, r, self.state()));
                r
            },
        }
    }

    /// Number of narrowband samples emitted so far.
    pub fn samples_out(&self) -> (n: u64)
        ensures
            n == self.state().emitted,
    {
        self.samples_emitted
    }

    /// Index of the next narrowband sample on the output timeline, where gaps
    /// leave holes.
    pub fn output_position(&self) -> (n: u64)
        ensures
            n == self.state().samples_out,
    {
        self.samples_out_total
    }

    /// Packets that could not be parsed so far.
    pub fn malformed(&self) -> (n: u64)
        ensures
            n == self.state().malformed,
    {
        self.malformed
    }

    /// The discontinuities seen so far.
    pub fn discontinuities(&self) -> (d: &[GapRecord])
        ensures
            d@ == self.state().discontinuities,
    {
        self.discontinuities.as_slice()
    }

    /// Counters and gauges.
    pub fn metrics(&self) -> (m: &Metrics)
        ensures
            m.state() == self.state().metrics,
    {
        &self.metrics
    }

    /// The stage plan.
    pub fn plan(&self) -> (p: &[StagePlan])
        ensures
            p@ == self.state().plan,
    {
        self.channelizer.plan()
    }

    /// Finish the stream: flush the partial packet and produce the report,
    /// handing the sink back.
    pub fn finish_with_sink<M: ServiceMath>(self, m: &M) -> (r: (Report, S))
        requires
            self.well_formed(),
        ensures
            finishes(*m, self.state(), r.0, r.1.sent(), r.1.dropped()),
    {
        let mut this = self;
        this.flush_output_packet(m);
        let ghost cut = this.state();
        let dropped: u64 = this.mirror_drops();
        let output_power = this.metrics.output_power_dbfs();
        let peak_offset = this.metrics.peak_offset_hz();
        let report = Report {
            ok: this.malformed == 0 && dropped == 0 && this.metrics.seq_gaps() == 0,
            packets_received: this.metrics.packets_received(),
            malformed_packets: this.malformed,
            packets_dropped: dropped,
            seq_gaps: this.metrics.seq_gaps(),
            gap_samples: this.metrics.gap_samples(),
            samples_in: this.samples_in_total,
            samples_out: this.samples_out_total,
            input_rate_hz: this.cfg.input_rate,
            output_rate_hz: this.cfg.output_rate,
            decimation: this.channelizer.decimation(),
            settling_samples: this.channelizer.settling_samples(),
            offset_hz: this.cfg.offset_hz,
            passband_hz: this.cfg.passband_hz,
            stopband_db: this.cfg.stopband_db,
            output_power_dbfs: if output_power.is_finite() {
                Some(output_power)
            } else {
                None
            },
            peak_offset_hz: if peak_offset.is_finite() {
                Some(peak_offset)
            } else {
                None
            },
            discontinuities: this.discontinuities,
        };
        assert(flushes(*m, self.state(), cut));
        assert(is_report(cut.mirrored(), report));
        (report, this.sink)
    }

    /// Finish the stream, discarding the sink.
    pub fn finish<M: ServiceMath>(self, m: &M) -> (r: Report)
        requires
            self.well_formed(),
        ensures
            exists|sent: Seq<SentPacket>, dropped: u64| #[trigger]
                finishes(*m, self.state(), r, sent, dropped),
    {
        self.finish_with_sink(m).0
    }
}

/// The value of a gauge that was measured.
pub open spec fn measured(g: GaugeState) -> Option<Real32> {
    if g.value.finite() {
        Some(g.value)
    } else {
        None
    }
}

/// `r` reports the state `s` of a finished service.
pub open spec fn is_report(s: ServiceState, r: Report) -> bool {
    &&& r.ok == (s.malformed == 0 && s.dropped == 0 && s.metrics.seq_gaps == 0)
    &&& r.packets_received == s.metrics.packets_received
    &&& r.malformed_packets == s.malformed
    &&& r.packets_dropped == s.dropped
    &&& r.seq_gaps == s.metrics.seq_gaps
    &&& r.gap_samples == s.metrics.gap_samples
    &&& r.samples_in == s.samples_in
    &&& r.samples_out == s.samples_out
    &&& r.input_rate_hz == s.cfg.input_rate
    &&& r.output_rate_hz == s.cfg.output_rate
    &&& r.decimation == factor_product(s.plan)
    &&& r.settling_samples == settling_of(s.plan)
    &&& r.offset_hz == s.cfg.offset_hz
    &&& r.passband_hz == s.cfg.passband_hz
    &&& r.stopband_db == s.cfg.stopband_db
    &&& r.output_power_dbfs == measured(s.metrics.output_power_dbfs)
    &&& r.peak_offset_hz == measured(s.metrics.peak_offset_hz)
    &&& r.discontinuities@ == s.discontinuities
}

/// Finishing a service in state `s` sends what is pending and gives report `r`,
/// with the sink at `sent` and `dropped`.
pub open spec fn finishes<M: ServiceMath>(
    m: M,
    s: ServiceState,
    r: Report,
    sent: Seq<SentPacket>,
    dropped: u64,
) -> bool {
    exists|cut: ServiceState| #[trigger]
        flushes(m, s, cut) && is_report(cut.mirrored(), r) && sent == cut.sent && dropped
            == cut.dropped
}

/// A parsed packet whose seconds scale to `scaled` samples takes `s` to `t` with
/// result `r`.
pub open spec fn takes_at<M: ChainMath>(
    m: M,
    s: ServiceState,
    p: Packet,
    scaled: Real64,
    r: Result<PacketOutcome, CounterOverflow>,
    t: ServiceState,
) -> bool {
    let counter = counter_value(scaled, p.ts_frac);
    let n = (p.payload@.len() / 4) as int;
    match r {
        Ok(o) => counter <= u64::MAX && s.has_room(counter as u64, n) && accepts(
            m,
            s,
            p.payload@,
            counter as u64,
            o,
            t,
        ),
        Err(_) => (counter > u64::MAX || !s.has_room(counter as u64, n)) && t == s,
    }
}

/// The packet `buf` takes `s` to `t` with result `r`.
pub open spec fn takes<M: ChainMath>(
    m: M,
    s: ServiceState,
    buf: Seq<u8>,
    r: Result<PacketOutcome, CounterOverflow>,
    t: ServiceState,
) -> bool {
    exists|p: Packet, scaled: Real64| #[trigger]
        takes_at(m, s, p, scaled, r, t) && has_fields_of(p, buf) && seconds_gives(
            m,
            p.ts_int,
            s.cfg.input_rate,
            scaled,
        )
}

/// The datagram `buf` takes `s` to `t` with result `r`: one that is no packet is
/// counted and otherwise ignored.
pub open spec fn digests<M: ChainMath>(
    m: M,
    s: ServiceState,
    buf: Seq<u8>,
    r: Result<PacketOutcome, CounterOverflow>,
    t: ServiceState,
) -> bool {
    match packet_fault(buf) {
        Some(_) => match r {
            Ok(o) => {
                &&& s.malformed < u64::MAX
                &&& o == (PacketOutcome { samples_in: 0, samples_out: 0, gap: None, malformed: true })
                &&& t == (ServiceState { malformed: s.malformed + 1, ..s })
            },
            Err(_) => s.malformed == u64::MAX && t == s,
        },
        None => takes(m, s, buf, r, t),
    }
}

/// `a / b`, rounded up.
fn div_ceil(a: u64, b: u64) -> (r: u64)
    requires
        b >= 1,
    ensures
        r == (a + b - 1) / (b as int),
        r <= a,
{
    let q: u64 = a / b;
    let rest: u64 = a % b;
    proof {
        let x = a as int;
        let y = b as int;
        vstd::arithmetic::div_mod::lemma_fundamental_div_mod(x, y);
        vstd::arithmetic::mul::lemma_mul_is_commutative(y, q as int);
        if rest == 0 {
            assert(x + y - 1 == q * y + (y - 1));
            vstd::arithmetic::div_mod::lemma_fundamental_div_mod_converse(
                x + y - 1,
                y,
                q as int,
                y - 1,
            );
        } else {
            assert((q + 1) * y == q * y + y) by (nonlinear_arith);
            vstd::arithmetic::div_mod::lemma_fundamental_div_mod_converse(
                x + y - 1,
                y,
                q + 1,
                rest - 1,
            );
        }
        assert(q as int * y >= q) by (nonlinear_arith)
            requires
                y >= 1,
        ;
    }
    if rest == 0 {
        q
    } else {
        q + 1
    }
}

proof fn lemma_holes_nonnegative(records: Seq<GapRecord>, decimation: nat)
    requires
        decimation >= 1,
    ensures
        holes(records, decimation) >= 0,
    decreases records.len(),
{
    if records.len() > 0 {
        lemma_holes_nonnegative(records.drop_last(), decimation);
        vstd::arithmetic::div_mod::lemma_div_pos_is_pos(
            records.last().missing_samples + decimation - 1,
            decimation as int,
        );
    }
}

proof fn lemma_no_drops(a: MetricsState)
    ensures
        a.dropped(0) == a,
{
    assert(a.dropped(0) =~= a);
}

proof fn position_bound(s: ServiceState)
    requires
        s.chan.valid(),
    ensures
        position(s.chan.stages) < period(s.chan.stages),
{
    crate::dsp::decimator::position_is_below_period(s.chan.stages);
}

/// No more outputs come than inputs went in, once the position is below the
/// period.
pub proof fn lemma_outputs_bounded(pos: int, n: int, d: int)
    requires
        0 <= pos < d,
        n >= 0,
    ensures
        0 <= (pos + n) / d <= n,
{
    let q = (pos + n) / d;
    vstd::arithmetic::div_mod::lemma_fundamental_div_mod(pos + n, d);
    vstd::arithmetic::div_mod::lemma_div_pos_is_pos(pos + n, d);
    vstd::arithmetic::div_mod::lemma_mod_bound(pos + n, d);
    assert(q <= n) by (nonlinear_arith)
        requires
            d * q <= pos + n,
            pos < d,
            q >= 0,
            n >= 0,
            d > 0,
    ;
}

proof fn lemma_emits_nothing<M: ServiceMath>(m: M, s: ServiceState)
    requires
        s.pending.len() < OUTPUT_PACKET_SAMPLES,
    ensures
        emits(m, s, Seq::empty(), s),
{
    let all = s.pending + Seq::<Iq>::empty();
    assert(all =~= s.pending);
    assert(all.skip(0) =~= all);
    lemma_no_drops(s.metrics);
}

/// Block boundaries do not matter to the output: producing one block of samples
/// and then another sends the packets that producing both at once sends.
pub proof fn emission_ignores_block_boundaries<M: ServiceMath>(
    m: M,
    s: ServiceState,
    ys: Seq<Iq>,
    u: ServiceState,
    more: Seq<Iq>,
    t: ServiceState,
)
    requires
        s.pending.len() < OUTPUT_PACKET_SAMPLES,
        s.seen <= s.dropped,
        emits(m, s, ys, u),
        emits(m, u, more, t),
    ensures
        emits(m, s, ys + more, t),
{
    let size = OUTPUT_PACKET_SAMPLES as int;
    let all = s.pending + ys;
    let n = (all.len() / (OUTPUT_PACKET_SAMPLES as nat)) as int;
    let whole = s.pending + (ys + more);
    assert(whole =~= all + more);
    let tail = u.pending + more;
    assert(tail =~= whole.skip(size * n));
    let k = (tail.len() / (OUTPUT_PACKET_SAMPLES as nat)) as int;
    let total = (whole.len() / (OUTPUT_PACKET_SAMPLES as nat)) as int;
    assert(total == n + k);
    assert(t.pending =~= whole.skip(size * total));
    assert(s.sent.is_prefix_of(t.sent)) by {
        assert(s.sent.is_prefix_of(u.sent));
        assert(u.sent.is_prefix_of(t.sent));
    }
    assert forall|j: int| 0 <= j < total implies is_output_packet(
        m,
        s.cfg.output_rate,
        whole.subrange(size * j, size * j + size),
        s.unsent() + size * j,
        #[trigger] t.sent[s.sent.len() + j],
    ) by {
        if j < n {
            assert(t.sent[s.sent.len() + j] == u.sent[s.sent.len() + j]);
            assert(whole.subrange(size * j, size * j + size) =~= all.subrange(
                size * j,
                size * j + size,
            ));
        } else {
            let i = j - n;
            assert(t.sent[u.sent.len() + i] == t.sent[s.sent.len() + j]);
            assert(tail.subrange(size * i, size * i + size) =~= whole.subrange(
                size * j,
                size * j + size,
            ));
            assert(u.unsent() == s.unsent() + size * n);
        }
    }
    let a = (u.seen - s.seen) as u64;
    let b = (t.seen - u.seen) as u64;
    assert(s.metrics.dropped(a).dropped(b) =~= s.metrics.dropped((t.seen - s.seen) as u64));
}

/// Processing keeps what it does not speak of.
proof fn lemma_processes_keeps<M: ChainMath>(
    m: M,
    s: ServiceState,
    interleaved: Seq<i16>,
    ys: Seq<Iq>,
    t: ServiceState,
)
    requires
        processes(m, s, interleaved, ys, t),
    ensures
        t.samples_in == s.samples_in,
        t.emitted == s.emitted + ys.len(),
        t.samples_out == s.samples_out + ys.len(),
        t.malformed == s.malformed,
        t.gaps == s.gaps,
        t.discontinuities == s.discontinuities,
        t.plan == s.plan,
        t.cfg == s.cfg,
{
}

} // verus!

//! What calls make of what they change: the state before, the state after, and the
//! result.

use vstd::prelude::*;
use crate::dsp::decimator::Channelizer;
#[allow(unused_imports)]
use crate::dsp::decimator::{position, produces};
use crate::dsp::fft::{fft_in_place, FftMath};
#[allow(unused_imports)]
use crate::dsp::fft::{is_fft, zipped};
use crate::dsp::filter::{FilterMath, FirDecimator};
#[allow(unused_imports)]
use crate::dsp::filter::filters;
use crate::dsp::fma::{fused_multiply_add_8lane, fused_multiply_add_kernel, KernelError, MultiplyAddMath};
#[allow(unused_imports)]
use crate::dsp::fma::multiply_add_gives;
use crate::dsp::gaps::{GapMarker, GapTracker};
#[allow(unused_imports)]
use crate::dsp::gaps::a_packet_is_judged_by_where_it_stands;
use crate::dsp::iq::Iq;
use crate::dsp::nco::{Nco, OscillatorMath};
#[allow(unused_imports)]
use crate::dsp::nco::mixes;
#[allow(unused_imports)]
use crate::dsp::plan::factor_product;
use crate::ieee::{Real32, Real64};
use crate::metrics::{GaugeText, Metrics};
use crate::service::channelizer::{ChainMath, ChannelizerService, CounterOverflow, PacketOutcome};
#[allow(unused_imports)]
use crate::service::channelizer::{digests, processes};
use crate::service::output::{CollectingSink, OutputSink};
use crate::service::sink::{IdleAction, VerificationSink};
#[allow(unused_imports)]
use crate::service::sink::sink_digests;
#[allow(unused_imports)]
use crate::service::sink_laws::waiting_ends_in_time;
use crate::vita49::cursor::PacketCursor;
use crate::vita49::forwarder::{ForwardAction, SendOutcome, SendReport, Vita49Forwarder};
use crate::vita49::packet::{ParseError, TimestampMath};

verus! {

/// Offering a packet counts it. Where there is an address it is to be sent there;
/// where there is none, the address is looked up if ten seconds have passed since
/// the last attempt, and otherwise the packet is dropped and counted.
pub proof fn offering_a_packet<A: Copy>(
    f: &mut Vita49Forwarder<A>,
    now: u64,
    action: ForwardAction<A>,
)
    requires
        call_ensures(Vita49Forwarder::<A>::send, (f, now), action),
    ensures
        ({
            let s = old(f).state();
            let t = final(f).state();
            let due = match s.last_resolve_attempt {
                Some(last) => last + 10_000_000_000 <= now,
                None => true,
            };
            &&& t.packet_count == (s.packet_count + 1) % 0x1_0000_0000
            &&& t.dest == s.dest
            &&& t.resolved == s.resolved
            &&& t.send_dropped == s.send_dropped
            &&& t.send_dropped_since_warn == s.send_dropped_since_warn
            &&& match s.resolved {
                Some(a) => action == ForwardAction::Transmit(a) && t.last_resolve_attempt
                    == s.last_resolve_attempt && t.unresolved_dropped == s.unresolved_dropped
                    && t.dropped_since_warn == s.dropped_since_warn,
                None => if due {
                    action == ForwardAction::<A>::Resolve && t.last_resolve_attempt == Some(now)
                        && t.unresolved_dropped == s.unresolved_dropped && t.dropped_since_warn
                        == s.dropped_since_warn
                } else {
                    &&& action matches ForwardAction::Drop(warn)
                    &&& t.last_resolve_attempt == s.last_resolve_attempt
                    &&& t.unresolved_dropped == s.unresolved_dropped + 1
                    &&& t.dropped_since_warn == s.dropped_since_warn + 1
                    &&& warn is Some <==> t.dropped_since_warn % 1000 == 0
                },
            }
        }),
{
}

/// A lookup that finds an address makes it the destination, and the packet at hand
/// goes there; one that finds none drops the packet and counts it.
pub proof fn taking_in_a_lookup<A: Copy>(
    f: &mut Vita49Forwarder<A>,
    found: Option<A>,
    action: ForwardAction<A>,
)
    requires
        call_ensures(Vita49Forwarder::<A>::resolution, (f, found), action),
    ensures
        ({
            let s = old(f).state();
            let t = final(f).state();
            &&& t.packet_count == s.packet_count
            &&& t.last_resolve_attempt == s.last_resolve_attempt
            &&& t.send_dropped == s.send_dropped
            &&& match found {
                Some(a) => action == ForwardAction::Transmit(a) && t.resolved == Some(a)
                    && t.dropped_since_warn == 0 && t.unresolved_dropped == s.unresolved_dropped,
                None => {
                    &&& action matches ForwardAction::Drop(warn)
                    &&& t.resolved == s.resolved
                    &&& t.unresolved_dropped == s.unresolved_dropped + 1
                    &&& t.dropped_since_warn == s.dropped_since_warn + 1
                    &&& warn is Some <==> t.dropped_since_warn % 1000 == 0
                },
            }
        }),
{
}

/// A send that took the whole packet is complete, one that took less is partial; a
/// full buffer loses the packet, which is counted and reported once in a thousand;
/// a failure changes nothing.
pub proof fn taking_in_a_send<A: Copy>(
    f: &mut Vita49Forwarder<A>,
    outcome: SendOutcome,
    len: usize,
    report: SendReport,
)
    requires
        call_ensures(Vita49Forwarder::<A>::transmitted, (f, outcome, len), report),
        0 <= old(f).state().send_dropped_since_warn < 1000,
    ensures
        ({
            let s = old(f).state();
            let t = final(f).state();
            &&& outcome matches SendOutcome::Sent(n) ==> t == s && (report == SendReport::Complete
                <==> n == len) && (report == SendReport::Partial <==> n != len)
            &&& outcome == SendOutcome::Failed ==> t == s && report == SendReport::Error
            &&& outcome == SendOutcome::WouldBlock ==> {
                &&& t.send_dropped == s.send_dropped + 1
                &&& t.send_dropped_since_warn == (s.send_dropped_since_warn + 1) % 1000
                &&& t.unresolved_dropped == s.unresolved_dropped
                &&& t.resolved == s.resolved
                &&& report == SendReport::Backpressure(
                    if s.send_dropped_since_warn + 1 == 1000 {
                        Some(1000u64)
                    } else {
                        None::<u64>
                    },
                )
            }
        }),
{
}

/// A tracker judges a packet by where it stands.
pub proof fn observing_a_packet(
    t: &mut GapTracker,
    counter: u64,
    samples: u64,
    marker: Option<GapMarker>,
)
    requires
        call_ensures(GapTracker::observe, (t, counter, samples), marker),
    ensures
        ({
            let a = old(t).state();
            let b = final(t).state();
            let ahead = a.next_expected matches Some(e) && counter > e;
            let back = a.next_expected matches Some(e) && counter < e;
            &&& marker is Some <==> ahead
            &&& marker matches Some(g) ==> g.at_sample == counter && g.missing_samples == counter
                - a.next_expected.unwrap()
            &&& b.gaps == a.gaps + if ahead {
                1int
            } else {
                0
            }
            &&& b.gap_samples == a.gap_samples + if ahead {
                counter - a.next_expected.unwrap()
            } else {
                0
            }
            &&& b.resets == a.resets + if back {
                1int
            } else {
                0
            }
            &&& b.next_expected == Some(
                if counter + samples > u64::MAX {
                    u64::MAX
                } else {
                    (counter + samples) as u64
                },
            )
        }),
{
    a_packet_is_judged_by_where_it_stands(old(t).state(), counter, samples);
}

/// The mixer mixes the sample at hand, and goes on from where it is.
pub proof fn mixing_a_sample<M: OscillatorMath>(n: &mut Nco, x: Iq, m: &M, y: Iq)
    requires
        call_ensures(Nco::mix::<M>, (n, x, m), y),
    ensures
        mixes(*m, old(n).state(), x, final(n).state(), y),
{
}

/// A filter takes the input at hand into its delay line, and answers if it is due;
/// clearing it takes it back to silence with the taps and the factor that it has.
pub proof fn filtering_an_input<M: FilterMath>(
    f: &mut FirDecimator,
    x: Real32,
    m: &M,
    y: Option<Real32>,
)
    requires
        call_ensures(FirDecimator::process::<M>, (f, x, m), y),
    ensures
        filters(*m, old(f).state(), x, y),
        final(f).state().taps == old(f).state().taps,
        final(f).state().factor == old(f).state().factor,
        final(f).state().history == seq![x] + old(f).state().history.drop_last(),
        y is Some <==> old(f).state().phase + 1 == old(f).state().factor,
{
}

/// Clearing a filter takes it back to silence, with the taps and the factor that it
/// has.
pub proof fn clearing_a_filter(f: &mut FirDecimator)
    requires
        call_ensures(FirDecimator::reset, (f,), ()),
    ensures
        final(f).state().taps == old(f).state().taps,
        final(f).state().factor == old(f).state().factor,
        final(f).state().phase == 0,
        final(f).state().history.len() == old(f).state().taps.len(),
        forall|k: int|
            0 <= k < final(f).state().history.len() ==> (#[trigger] final(f).state().history[k]).bits == 0,
{
}

/// A channelizer appends what its input produces to what was there, one output for
/// each time that the decimation is completed.
pub proof fn channelizing_samples<M: OscillatorMath + FilterMath>(
    c: &mut Channelizer,
    iq: &[Iq],
    out: &mut Vec<Iq>,
    m: &M,
)
    requires
        call_ensures(Channelizer::process_iq::<M>, (c, iq, out, m), ()),
    ensures
        final(out)@.len() >= old(out)@.len(),
        final(out)@.take(old(out)@.len() as int) == old(out)@,
        produces(
            *m,
            old(c).state(),
            iq@,
            final(c).state(),
            final(out)@.subrange(old(out)@.len() as int, final(out)@.len() as int),
        ),
        final(out)@.len() == old(out)@.len() + (position(old(c).state().stages) + iq@.len())
            / factor_product(old(c).plan_view()),
{
    let n = old(out)@.len() as int;
    assert(final(out)@.skip(n) =~= final(out)@.subrange(n, final(out)@.len() as int));
    assert(final(out)@.take(n) =~= old(out)@);
}

/// The transform replaces the numbers by their transform, real and imaginary parts
/// at the same places.
pub proof fn transforming_in_place<M: FftMath>(re: &mut [Real64], im: &mut [Real64], m: &M)
    requires
        call_ensures(fft_in_place::<M>, (re, im, m), ()),
    ensures
        final(re)@.len() == old(re)@.len(),
        final(im)@.len() == old(im)@.len(),
        is_fft(*m, zipped(old(re)@, old(im)@), zipped(final(re)@, final(im)@)),
        forall|k: int|
            0 <= k < old(re)@.len() ==> (#[trigger] zipped(old(re)@, old(im)@)[k]).re == old(re)@[k]
                && zipped(old(re)@, old(im)@)[k].im == old(im)@[k],
        forall|k: int|
            0 <= k < final(re)@.len() ==> (#[trigger] zipped(final(re)@, final(im)@)[k]).re == final(re)@[k] && zipped(final(re)@, final(im)@)[k].im == final(im)@[k],
{
}

/// The kernels write products as far as all arrays go, the short one for eight
/// elements at most, and leave the rest alone; the short one refuses an empty
/// array.
pub proof fn multiplying_arrays<M: MultiplyAddMath>(
    a: &[Real32],
    b: &[Real32],
    c: &mut [Real32],
    m: &M,
    r: Result<(), KernelError>,
    k: int,
)
    requires
        call_ensures(fused_multiply_add_kernel::<M>, (a, b, c, m), r),
        0 <= k < old(c)@.len(),
    ensures
        r is Ok,
        final(c)@.len() == old(c)@.len(),
        k < a@.len() && k < b@.len() ==> call_ensures(
            M::multiply_add,
            (m, a@[k], b@[k], Real32 { bits: 0 }),
            final(c)@[k],
        ),
        k >= a@.len() || k >= b@.len() ==> final(c)@[k] == old(c)@[k],
{
    if k < a@.len() && k < b@.len() {
        assert(multiply_add_gives(*m, a@[k], b@[k], Real32 { bits: 0 }, final(c)@[k]));
    }
}

/// The short kernel multiplies at most eight elements, and refuses an empty array.
pub proof fn multiplying_eight_lanes<M: MultiplyAddMath>(
    a: &[Real32],
    b: &[Real32],
    c: &mut [Real32],
    m: &M,
    r: Result<(), KernelError>,
    k: int,
)
    requires
        call_ensures(fused_multiply_add_8lane::<M>, (a, b, c, m), r),
        0 <= k < old(c)@.len(),
    ensures
        r is Err <==> a@.len() == 0 || b@.len() == 0 || old(c)@.len() == 0,
        final(c)@.len() == old(c)@.len(),
        k < a@.len() && k < b@.len() && k < 8 ==> call_ensures(
            M::multiply_add,
            (m, a@[k], b@[k], Real32 { bits: 0 }),
            final(c)@[k],
        ),
        k >= a@.len() || k >= b@.len() || k >= 8 ==> final(c)@[k] == old(c)@[k],
{
    if k < a@.len() && k < b@.len() && k < 8 {
        assert(multiply_add_gives(*m, a@[k], b@[k], Real32 { bits: 0 }, final(c)@[k]));
    }
}

/// A cursor hands out what the size field in front declares, and stands behind it;
/// a tail that holds no complete packet is handed out as a fault, once; at the end
/// there is nothing.
pub proof fn cutting_off_a_packet<'a>(
    c: &mut PacketCursor<'a>,
    r: Option<Result<&'a [u8], ParseError>>,
)
    requires
        call_ensures(PacketCursor::<'a>::next_slice, (c,), r),
    ensures
        ({
            let rest = old(c)@;
            let declared = 4 * (256 * rest[2] + rest[3] + 1);
            &&& rest.len() == 0 ==> r is None
            &&& 0 < rest.len() < 20 ==> (r matches Some(Err(ParseError::TooShort { got })) && got
                == rest.len()) && final(c)@.len() == 0
            &&& rest.len() >= 20 && declared > rest.len() ==> (r matches Some(Err(_))) && final(c)@.len() == 0
            &&& rest.len() >= 20 && declared <= rest.len() ==> {
                &&& r matches Some(Ok(s)) && s@ == rest.subrange(0, declared)
                &&& final(c)@ == rest.subrange(declared, rest.len() as int)
            }
        }),
{
    let rest = old(c)@;
    let declared = 4 * (256 * rest[2] + rest[3] + 1);
    if rest.len() >= 20 && declared <= rest.len() {
        assert(rest.take(declared) =~= rest.subrange(0, declared));
        assert(rest.skip(declared) =~= rest.subrange(declared, rest.len() as int));
    }
}

/// Recordings count what is recorded.
pub proof fn recording_counts(
    received: &mut Metrics,
    dropped: &mut Metrics,
    gap: &mut Metrics,
    samples: &mut Metrics,
    a: u64,
    b: u64,
)
    requires
        call_ensures(Metrics::record_packet_received, (received,), ()),
        call_ensures(Metrics::record_packets_dropped, (dropped, a), ()),
        call_ensures(Metrics::record_gap, (gap, a), ()),
        call_ensures(Metrics::record_samples, (samples, a, b), ()),
    ensures
        final(received).state().packets_received == (old(received).state().packets_received + 1)
            % 0x1_0000_0000_0000_0000,
        final(dropped).state().packets_dropped == (old(dropped).state().packets_dropped + a)
            % 0x1_0000_0000_0000_0000,
        final(dropped).state().packets_received == old(dropped).state().packets_received,
        final(gap).state().seq_gaps == (old(gap).state().seq_gaps + 1) % 0x1_0000_0000_0000_0000,
        final(gap).state().gap_samples == (old(gap).state().gap_samples + a)
            % 0x1_0000_0000_0000_0000,
        final(samples).state().samples_in == (old(samples).state().samples_in + a)
            % 0x1_0000_0000_0000_0000,
        final(samples).state().samples_out == (old(samples).state().samples_out + b)
            % 0x1_0000_0000_0000_0000,
{
}

/// Gauges take the value that is set, and keep the others.
pub proof fn setting_gauges<N: GaugeText>(
    output: &mut Metrics,
    input: &mut Metrics,
    offset: &mut Metrics,
    v: Real32,
    n: &N,
)
    requires
        call_ensures(Metrics::set_output_power_dbfs::<N>, (output, v, n), ()),
        call_ensures(Metrics::set_input_power_dbfs::<N>, (input, v, n), ()),
        call_ensures(Metrics::set_peak_offset_hz::<N>, (offset, v, n), ()),
    ensures
        final(output).state().output_power_dbfs.value == v,
        final(output).state().peak_offset_hz == old(output).state().peak_offset_hz,
        final(output).state().input_power_dbfs == old(output).state().input_power_dbfs,
        final(input).state().input_power_dbfs.value == v,
        final(input).state().output_power_dbfs == old(input).state().output_power_dbfs,
        final(offset).state().peak_offset_hz.value == v,
        final(offset).state().output_power_dbfs == old(offset).state().output_power_dbfs,
        final(offset).state().packets_received == old(offset).state().packets_received,
{
}

/// The service digests the datagram at hand, from the state that it is in.
pub proof fn feeding_a_datagram<S: OutputSink, M: ChainMath>(
    svc: &mut ChannelizerService<S>,
    buf: &[u8],
    m: &M,
    r: Result<PacketOutcome, CounterOverflow>,
)
    requires
        call_ensures(ChannelizerService::<S>::process_datagram::<M>, (svc, buf, m), r),
    ensures
        digests(*m, old(svc).state(), buf@, r, final(svc).state()),
{
}

/// The service runs the components at hand through the pipeline, and says how many
/// samples came of them; what could not be framed is only counted.
pub proof fn feeding_components<S: OutputSink, M: ChainMath>(
    svc: &mut ChannelizerService<S>,
    other: &mut ChannelizerService<S>,
    interleaved: &[i16],
    m: &M,
    n: usize,
)
    requires
        call_ensures(
            ChannelizerService::<S>::process_interleaved::<M>,
            (svc, interleaved, m),
            n,
        ),
        call_ensures(ChannelizerService::<S>::note_malformed, (other,), ()),
    ensures
        exists|ys: Seq<Iq>| #[trigger]
            processes(*m, old(svc).state(), interleaved@, ys, final(svc).state()) && ys.len() == n,
        final(other).state().malformed == old(other).state().malformed + 1,
        final(other).state().sent == old(other).state().sent,
        final(other).state().samples_in == old(other).state().samples_in,
        final(other).state().metrics == old(other).state().metrics,
{
}

/// The consumer digests the datagram at hand, at the time that it came.
pub proof fn receiving_a_datagram<M: TimestampMath>(
    sink: &mut VerificationSink,
    buf: &[u8],
    now: u64,
    m: &M,
    r: Result<Option<ParseError>, CounterOverflow>,
)
    requires
        call_ensures(VerificationSink::on_datagram::<M>, (sink, buf, now, m), r),
    ensures
        sink_digests(*m, old(sink).state(), buf@, now, r, final(sink).state()),
{
}

/// While nothing arrives, the consumer finishes once a stream that has begun is
/// silent for the limit, or the time is up, reports once per interval, and waits
/// otherwise; a report is the only thing that it notes.
pub proof fn waiting_for_a_datagram(sink: &mut VerificationSink, now: u64, a: IdleAction)
    requires
        call_ensures(VerificationSink::on_idle, (sink, now), a),
        old(sink).state().last_packet_at matches Some(last) ==> last <= now,
        old(sink).state().last_report <= now,
    ensures
        ({
            let s = old(sink).state();
            let t = final(sink).state();
            let silent = match (s.last_packet_at, s.cfg.idle_limit) {
                (Some(last), Some(limit)) => last + limit <= now,
                _ => false,
            };
            let over = match s.cfg.deadline {
                Some(deadline) => deadline <= now,
                None => false,
            };
            let due = match s.cfg.report_interval {
                Some(interval) => s.last_report + interval <= now,
                None => false,
            };
            &&& a == if silent {
                IdleAction::FinishIdle
            } else if over {
                IdleAction::FinishDeadline
            } else if due {
                IdleAction::Report
            } else {
                IdleAction::Wait
            }
            &&& t.last_report == if a == IdleAction::Report {
                now
            } else {
                s.last_report
            }
            &&& t.packets == s.packets && t.samples == s.samples && t.measure == s.measure
        }),
{
    waiting_ends_in_time(old(sink).state(), now);
}

/// A collecting sink keeps every packet, in order, and drops none.
pub proof fn collecting_a_packet(
    sink: &mut CollectingSink,
    samples: &[i16],
    ts: Real64,
    rate: Real64,
)
    requires
        call_ensures(<CollectingSink as OutputSink>::send, (sink, samples, ts, rate), ()),
    ensures
        final(sink).packets@.len() == old(sink).packets@.len() + 1,
        final(sink).packets@.last().0@ == samples@,
        final(sink).packets@.last().1 == ts,
        final(sink).rate == rate,
        final(sink).packets@.drop_last() == old(sink).packets@,
{
}

} // verus!

//! Replaying a file of concatenated packets through the pipeline.
//!
//! The bytes of the file go through the same parse path that datagrams take, so
//! that the verdict does not depend on how the data arrived.

use vstd::prelude::*;
use crate::ieee::Real64;
use crate::vita49::cursor::PacketCursor;
#[allow(unused_imports)]
use crate::vita49::cursor::{first_len, walk};
use crate::vita49::packet::{parse, ParseError};
#[allow(unused_imports)]
use crate::vita49::packet::packet_fault;
use super::channelizer::{ChainMath, ChannelizerService, CounterOverflow, PacketOutcome};
#[allow(unused_imports)]
use super::channelizer::{digests, ServiceState};
use super::output::OutputSink;

verus! {

/// Where wideband packets come from.
#[derive(Debug, Clone, Copy, PartialEq, Eq, Structural)]
pub enum InputMode {
    /// Datagrams.
    Udp,
    /// A packet file.
    Replay,
}

/// The mode that a configuration names.
pub open spec fn named_mode(name: Seq<char>) -> Option<InputMode> {
    if name == "udp"@ {
        Some(InputMode::Udp)
    } else if name == "replay"@ {
        Some(InputMode::Replay)
    } else {
        None
    }
}

/// Choose the input mode: the one asked for, else the one that the configuration
/// names. `None` where that name is unknown.
pub fn choose_mode(asked: Option<InputMode>, configured: &str) -> (r: Option<InputMode>)
    ensures
        r == match asked {
            Some(mode) => Some(mode),
            None => named_mode(configured@),
        },
{
    if let Some(mode) = asked {
        return Some(mode);
    }
    let name = configured.to_owned();
    if name == "udp".to_owned() {
        Some(InputMode::Udp)
    } else if name == "replay".to_owned() {
        Some(InputMode::Replay)
    } else {
        None
    }
}

/// Floating-point arithmetic of real-time pacing.
pub trait PacingMath {
    /// `samples / rate`.
    fn duration(&self, samples: usize, rate: Real64) -> Real64;

    /// `a - b`.
    fn remaining(&self, a: Real64, b: Real64) -> Real64;
}

/// How long to wait after a packet of `samples` samples that took `elapsed`
/// seconds: what is left of the time that it stands for, if anything.
pub fn pause_after<M: PacingMath>(samples: usize, rate: Real64, elapsed: Real64, m: &M) -> (r: Option<
    Real64,
>)
    ensures
        exists|stands_for: Real64| #[trigger]
            call_ensures(M::duration, (m, samples, rate), stands_for) && match r {
                Some(wait) => elapsed.less(stands_for) && call_ensures(
                    M::remaining,
                    (m, stands_for, elapsed),
                    wait,
                ),
                None => !elapsed.less(stands_for),
            },
{
    let stands_for = m.duration(samples, rate);
    assert(call_ensures(M::duration, (m, samples, rate), stands_for));
    if elapsed.lt(stands_for) {
        Some(m.remaining(stands_for, elapsed))
    } else {
        None
    }
}

/// What one step of a replay did.
#[derive(Debug)]
pub enum ReplayStep {
    /// The file is at its end.
    Done,
    /// A packet was fed, with what came of it and why it did not parse, if it did
    /// not.
    Packet(PacketOutcome, Option<ParseError>),
    /// What is left of the file holds no complete packet.
    Malformed(ParseError),
}

/// One item of a walk takes `s` to `t`: a packet is digested, a fault is counted.
pub open spec fn item_step<M: ChainMath>(
    m: M,
    s: ServiceState,
    item: Result<Seq<u8>, ParseError>,
    t: ServiceState,
) -> bool {
    match item {
        Ok(raw) => exists|o: PacketOutcome| #[trigger] digests(m, s, raw, Ok(o), t),
        Err(_) => s.malformed < u64::MAX && t == (ServiceState { malformed: s.malformed + 1, ..s }),
    }
}

/// One item of a walk cannot be taken, because a counter would no longer fit.
pub open spec fn item_overflows<M: ChainMath>(
    m: M,
    s: ServiceState,
    item: Result<Seq<u8>, ParseError>,
) -> bool {
    match item {
        Ok(raw) => digests(m, s, raw, Err(CounterOverflow), s),
        Err(_) => s.malformed == u64::MAX,
    }
}

/// Replay the next packet of a file.
///
/// A packet that a counter has no room for is passed over: the service stays as
/// it was, and the next step goes on behind it.
pub fn replay_step<S: OutputSink, M: ChainMath>(
    cursor: &mut PacketCursor,
    service: &mut ChannelizerService<S>,
    m: &M,
) -> (r: Result<ReplayStep, CounterOverflow>)
    requires
        old(service).well_formed(),
    ensures
        final(service).well_formed(),
        walk(old(cursor)@).len() == 0 <==> r matches Ok(ReplayStep::Done),
        match r {
            Ok(ReplayStep::Done) => final(service).state() == old(service).state() && final(cursor)@
                == old(cursor)@,
            Ok(ReplayStep::Packet(o, fault)) => {
                &&& walk(old(cursor)@)[0] matches Ok(raw) && fault == packet_fault(raw) && digests(
                    *m,
                    old(service).state(),
                    raw,
                    Ok(o),
                    final(service).state(),
                )
                &&& walk(old(cursor)@).skip(1) == walk(final(cursor)@)
            },
            Ok(ReplayStep::Malformed(e)) => {
                &&& walk(old(cursor)@)[0] == Err::<Seq<u8>, ParseError>(e)
                &&& item_step(*m, old(service).state(), Err(e), final(service).state())
                &&& walk(old(cursor)@).skip(1) == walk(final(cursor)@)
            },
            Err(_) => {
                &&& item_overflows(*m, old(service).state(), walk(old(cursor)@)[0])
                &&& final(service).state() == old(service).state()
                &&& walk(old(cursor)@).skip(1) == walk(final(cursor)@)
            },
        },
        !(r matches Ok(ReplayStep::Done)) ==> final(cursor)@.len() < old(cursor)@.len(),
{
    let ghost before = cursor@;
    let ghost s = service.state();
    match cursor.next_slice() {
        None => Ok(ReplayStep::Done),
        Some(Ok(raw)) => {
            proof {
                assert(walk(before) == seq![Ok::<Seq<u8>, ParseError>(before.take(first_len(before)))]
                    + walk(before.skip(first_len(before))));
                assert(walk(before).skip(1) =~= walk(cursor@));
            }
            let fault: Option<ParseError> = match parse(raw) {
                Ok(_) => None,
                Err(e) => Some(e),
            };
            match service.process_datagram(raw, m) {
                Ok(o) => Ok(ReplayStep::Packet(o, fault)),
                Err(e) => Err(e),
            }
        },
        Some(Err(e)) => {
            proof {
                assert(walk(before) == seq![Err::<Seq<u8>, ParseError>(e)]);
                assert(walk(before).skip(1) =~= walk(cursor@));
            }
            if service.malformed() == u64::MAX {
                return Err(CounterOverflow);
            }
            service.note_malformed();
            Ok(ReplayStep::Malformed(e))
        },
    }
}

/// `states` are the states of a service that takes `items` one by one.
pub open spec fn replays<M: ChainMath>(
    m: M,
    states: Seq<ServiceState>,
    items: Seq<Result<Seq<u8>, ParseError>>,
) -> bool {
    &&& states.len() == items.len() + 1
    &&& forall|k: int|
        0 <= k < items.len() ==> item_step(m, states[k], #[trigger] items[k], states[k + 1])
}

/// The packets among the first `k` items.
pub open spec fn packets_among(items: Seq<Result<Seq<u8>, ParseError>>, k: int) -> int
    decreases k,
{
    if k <= 0 {
        0
    } else {
        packets_among(items, k - 1) + if items[k - 1] is Ok {
            1int
        } else {
            0
        }
    }
}

/// The first `k` items of a file take `s` to `t`.
pub open spec fn replays_first<M: ChainMath>(
    m: M,
    s: ServiceState,
    items: Seq<Result<Seq<u8>, ParseError>>,
    k: int,
    t: ServiceState,
) -> bool {
    exists|states: Seq<ServiceState>| #[trigger]
        replays(m, states, items.take(k)) && states[0] == s && states.last() == t
}

/// Replay a whole file: every packet in order, and last the fault of a tail that
/// holds no complete packet. Returns how many packets were fed.
///
/// Stops, with everything before it taken, at an item that a counter has no room
/// for.
pub fn replay<S: OutputSink, M: ChainMath>(
    bytes: &[u8],
    service: &mut ChannelizerService<S>,
    m: &M,
) -> (r: Result<u64, CounterOverflow>)
    requires
        old(service).well_formed(),
    ensures
        final(service).well_formed(),
        match r {
            Ok(fed) => {
                &&& replays_first(
                    *m,
                    old(service).state(),
                    walk(bytes@),
                    walk(bytes@).len() as int,
                    final(service).state(),
                )
                &&& fed == packets_among(walk(bytes@), walk(bytes@).len() as int)
            },
            Err(_) => exists|k: int| #[trigger]
                replays_first(
                    *m,
                    old(service).state(),
                    walk(bytes@),
                    k,
                    final(service).state(),
                ) && 0 <= k < walk(bytes@).len() && item_overflows(
                    *m,
                    final(service).state(),
                    walk(bytes@)[k],
                ),
        },
{
    let ghost items = walk(bytes@);
    let ghost start = service.state();
    let mut cursor = PacketCursor::new(bytes);
    let mut fed: u64 = 0;
    let ghost mut states: Seq<ServiceState> = seq![start];
    let ghost mut k: int = 0;
    let total: usize = bytes.len();
    proof {
        assert(items.skip(0) =~= items);
        assert(items.take(0) =~= seq![]);
    }
    loop
        invariant
            service.well_formed(),
            items == walk(bytes@),
            start == old(service).state(),
            0 <= k <= items.len(),
            walk(cursor@) == items.skip(k),
            replays(*m, states, items.take(k)),
            states[0] == start,
            states.last() == service.state(),
            fed == packets_among(items, k),
            fed + cursor@.len() <= total,
            total == bytes@.len(),
        decreases cursor@.len(),
    {
        let ghost before = service.state();
        let ghost rest = cursor@;
        let step = replay_step(&mut cursor, service, m);
        match step {
            Err(e) => {
                proof {
                    assert(items.skip(k).len() > 0) by {
                        if items.skip(k).len() == 0 {
                            assert(walk(rest).len() == 0);
                        }
                    }
                    assert(walk(rest)[0] == items[k]);
                    assert(replays_first(*m, start, items, k, service.state()));
                }
                return Err(e);
            },
            Ok(ReplayStep::Done) => {
                proof {
                    assert(items.skip(k).len() == 0);
                    assert(replays_first(*m, start, items, k, service.state()));
                }
                return Ok(fed);
            },
            Ok(other) => {
                proof {
                    assert(items.skip(k).len() > 0);
                    assert(walk(rest)[0] == items[k]);
                    assert(items.skip(k).skip(1) =~= items.skip(k + 1));
                    assert(item_step(*m, before, items[k], service.state()));
                    let more = states.push(service.state());
                    assert forall|j: int| 0 <= j < k + 1 implies item_step(
                        *m,
                        more[j],
                        #[trigger] items.take(k + 1)[j],
                        more[j + 1],
                    ) by {
                        if j < k {
                            assert(items.take(k)[j] == items[j]);
                        }
                    }
                    states = more;
                    k = k + 1;
                }
                if let ReplayStep::Packet(_, _) = other {
                    fed = fed + 1;
                }
            },
        }
    }
}

/// The configuration names a mode by `udp` or `replay`, and by nothing else.
pub proof fn two_names_are_known(name: Seq<char>)
    ensures
        name == "udp"@ ==> named_mode(name) == Some(InputMode::Udp),
        name == "replay"@ && name != "udp"@ ==> named_mode(name) == Some(InputMode::Replay),
        name != "udp"@ && name != "replay"@ ==> named_mode(name) is None,
{
}

/// Each item of a file is taken in the way a datagram with the same bytes is, and a
/// tail that holds no packet counts as one malformed packet.
pub proof fn a_file_is_taken_as_datagrams_are<M: ChainMath>(
    m: M,
    s: ServiceState,
    item: Result<Seq<u8>, ParseError>,
    t: ServiceState,
)
    requires
        item_step(m, s, item, t),
    ensures
        item matches Ok(raw) ==> exists|o: PacketOutcome| #[trigger] digests(m, s, raw, Ok(o), t),
        item is Err ==> t.malformed == s.malformed + 1 && t == (ServiceState {
            malformed: t.malformed,
            ..s
        }),
{
}

/// Every packet of a file is counted, and its tail is not.
pub proof fn packets_are_counted_and_tails_are_not(
    items: Seq<Result<Seq<u8>, ParseError>>,
    k: int,
)
    requires
        0 <= k <= items.len(),
        forall|j: int| 0 <= j < k ==> (#[trigger] items[j]) is Ok,
    ensures
        packets_among(items, k) == k,
        k < items.len() && items[k] is Err ==> packets_among(items, k + 1) == k,
    decreases k,
{
    if k > 0 {
        packets_are_counted_and_tails_are_not(items, k - 1);
        assert(items[k - 1] is Ok);
    }
}

} // verus!

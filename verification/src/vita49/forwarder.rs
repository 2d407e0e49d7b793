//! Forwarding policy towards a consumer that may not exist yet.
//!
//! The destination is resolved lazily and its absence is not fatal: capture
//! goes on, packets are dropped and counted, and resolution is tried again at
//! intervals. This module decides; name resolution and the socket belong to the
//! caller, who performs the [`ForwardAction`] and hands back what came of it.

use vstd::prelude::*;
use crate::text::push_decimal;
#[allow(unused_imports)]
use crate::text::decimal;

verus! {

/// Nanoseconds between resolution attempts while the destination is unresolved.
pub const RESOLVE_RETRY_INTERVAL: u64 = 10_000_000_000;

/// Dropped packets between "still unresolved" warnings.
pub const DROP_WARN_INTERVAL: u64 = 1000;

/// Packets lost to a full send buffer between warnings.
pub const SEND_DROP_WARN_INTERVAL: u64 = 1000;

/// What to do next with the packet at hand.
#[derive(Debug)]
pub enum ForwardAction<A> {
    /// Try to resolve the destination, then call [`Vita49Forwarder::resolution`].
    Resolve,
    /// Send the packet there, then call [`Vita49Forwarder::transmitted`].
    Transmit(A),
    /// Drop the packet; with a count, warn that so many were dropped so far.
    Drop(Option<u64>),
}

/// How a send ended.
#[derive(Debug, Clone, Copy, PartialEq, Eq, Structural)]
pub enum SendOutcome {
    /// The transport took this many bytes.
    Sent(usize),
    /// The send buffer was full, so the packet is lost.
    WouldBlock,
    /// The transport failed.
    Failed,
}

/// What to report of a send.
#[derive(Debug, Clone, Copy, PartialEq, Eq, Structural)]
pub enum SendReport {
    /// The whole packet went out.
    Complete,
    /// Only part of the packet went out.
    Partial,
    /// The packet was lost; with a count, warn that so many were lost since the
    /// last such warning.
    Backpressure(Option<u64>),
    /// The transport failed.
    Error,
}

/// Decides where packets go and accounts for those that go nowhere.
///
/// `A` is the type of a resolved address.
pub struct Vita49Forwarder<A> {
    dest: String,
    resolved: Option<A>,
    last_resolve_attempt: Option<u64>,
    packet_count: u32,
    dropped_since_warn: u64,
    unresolved_dropped: u64,
    send_dropped: u64,
    send_dropped_since_warn: u64,
}

/// The state of a forwarder.
pub struct ForwarderState<A> {
    /// Destination as given, `host:port`.
    pub dest: Seq<char>,
    /// Resolved destination, once resolution succeeded.
    pub resolved: Option<A>,
    /// When resolution was last attempted, in nanoseconds.
    pub last_resolve_attempt: Option<u64>,
    /// Packets offered so far, modulo `2^32`.
    pub packet_count: u32,
    /// Packets dropped for want of an address since the last resolution.
    pub dropped_since_warn: int,
    /// Packets ever dropped for want of an address.
    pub unresolved_dropped: int,
    /// Packets ever lost to a full send buffer.
    pub send_dropped: int,
    /// Packets lost to a full send buffer since the last warning.
    pub send_dropped_since_warn: int,
}

impl<A> ForwarderState<A> {
    /// Resolution is due: there is no address, and the retry interval has passed
    /// since the last attempt.
    pub open spec fn resolution_due(self, now: u64) -> bool {
        self.resolved is None && match self.last_resolve_attempt {
            Some(last) => now - last >= RESOLVE_RETRY_INTERVAL,
            None => true,
        }
    }

    /// The state after one more packet was offered.
    pub open spec fn offered(self) -> Self {
        ForwarderState {
            packet_count: if self.packet_count == u32::MAX {
                0
            } else {
                (self.packet_count + 1) as u32
            },
            ..self
        }
    }

    /// The state after one packet was dropped for want of an address.
    pub open spec fn dropped_unresolved(self) -> Self {
        ForwarderState {
            dropped_since_warn: self.dropped_since_warn + 1,
            unresolved_dropped: self.unresolved_dropped + 1,
            ..self
        }
    }

    /// The count to warn with after a drop: every thousandth since the last
    /// resolution.
    pub open spec fn drop_warning(self) -> Option<u64> {
        if self.dropped_since_warn % (DROP_WARN_INTERVAL as int) == 0 {
            Some(self.dropped_since_warn as u64)
        } else {
            None
        }
    }

    /// The state after one packet was lost to a full send buffer.
    pub open spec fn dropped_by_send(self) -> Self {
        ForwarderState {
            send_dropped: self.send_dropped + 1,
            send_dropped_since_warn: if self.send_dropped_since_warn + 1 >= SEND_DROP_WARN_INTERVAL {
                0
            } else {
                self.send_dropped_since_warn + 1
            },
            ..self
        }
    }

    /// Packets that went nowhere.
    pub open spec fn total_dropped(self) -> int {
        self.unresolved_dropped + self.send_dropped
    }
}

impl<A: Copy> Vita49Forwarder<A> {
    /// The state that contracts speak of.
    pub closed spec fn state(&self) -> ForwarderState<A> {
        ForwarderState {
            dest: self.dest@,
            resolved: self.resolved,
            last_resolve_attempt: self.last_resolve_attempt,
            packet_count: self.packet_count,
            dropped_since_warn: self.dropped_since_warn as int,
            unresolved_dropped: self.unresolved_dropped as int,
            send_dropped: self.send_dropped as int,
            send_dropped_since_warn: self.send_dropped_since_warn as int,
        }
    }

    /// The send-loss window is what is left of the total after whole windows,
    /// and the drops since resolution are among all the drops.
    pub closed spec fn well_formed(&self) -> bool {
        &&& self.send_dropped_since_warn == self.send_dropped % SEND_DROP_WARN_INTERVAL
        &&& self.dropped_since_warn <= self.unresolved_dropped
    }

    /// One more drop can still be counted.
    pub open spec fn can_count(&self) -> bool {
        self.state().total_dropped() < u64::MAX
    }

    /// A forwarder for `dest_host:dest_port`, after a first resolution attempt at
    /// `now` that gave `resolved`.
    pub fn new(dest_host: &str, dest_port: u16, resolved: Option<A>, now: u64) -> (f: Self)
        ensures
            f.well_formed(),
            f.state() == (ForwarderState::<A> {
                dest: dest_host@ + ":"@ + decimal(dest_port as nat),
                resolved,
                last_resolve_attempt: Some(now),
                packet_count: 0,
                dropped_since_warn: 0,
                unresolved_dropped: 0,
                send_dropped: 0,
                send_dropped_since_warn: 0,
            }),
    {
        let mut dest = dest_host.to_owned();
        dest.append(":");
        push_decimal(&mut dest, dest_port as u64);
        Vita49Forwarder {
            dest,
            resolved,
            last_resolve_attempt: Some(now),
            packet_count: 0,
            dropped_since_warn: 0,
            unresolved_dropped: 0,
            send_dropped: 0,
            send_dropped_since_warn: 0,
        }
    }

    /// Destination as given, `host:port`.
    pub fn dest(&self) -> (s: &str)
        ensures
            s@ == self.state().dest,
    {
        self.dest.as_str()
    }

    /// Packets offered so far, modulo `2^32`.
    pub fn packet_count(&self) -> (n: u32)
        ensures
            n == self.state().packet_count,
    {
        self.packet_count
    }

    /// Packets ever lost to a full send buffer.
    pub fn send_dropped(&self) -> (n: u64)
        ensures
            n == self.state().send_dropped,
    {
        self.send_dropped
    }

    /// Packets lost to a full send buffer since the last warning.
    pub fn send_dropped_since_warn(&self) -> (n: u64)
        ensures
            n == self.state().send_dropped_since_warn,
    {
        self.send_dropped_since_warn
    }

    /// Packets dropped so far, for want of an address or by a full send buffer.
    pub fn dropped_packets(&self) -> (n: u64)
        requires
            self.state().total_dropped() <= u64::MAX,
        ensures
            n == self.state().total_dropped(),
    {
        self.unresolved_dropped + self.send_dropped
    }

    /// Whether one more drop can still be counted.
    pub fn has_room(&self) -> (r: bool)
        ensures
            r == self.can_count(),
    {
        match self.unresolved_dropped.checked_add(self.send_dropped) {
            Some(total) => total < u64::MAX,
            None => false,
        }
    }

    /// Decide whether resolution must be attempted at `now`, and note the
    /// attempt if so.
    fn resolve_if_needed(&mut self, now: u64) -> (due: bool)
        ensures
            due == old(self).state().resolution_due(now),
            final(self).state() == (ForwarderState {
                last_resolve_attempt: if due {
                    Some(now)
                } else {
                    old(self).state().last_resolve_attempt
                },
                ..old(self).state()
            }),
            old(self).well_formed() ==> final(self).well_formed(),
    {
        if self.resolved.is_some() {
            return false;
        }
        if let Some(last) = self.last_resolve_attempt {
            if now.saturating_sub(last) < RESOLVE_RETRY_INTERVAL {
                return false;
            }
        }
        self.last_resolve_attempt = Some(now);
        true
    }

    /// Count one packet dropped for want of an address.
    fn drop_unresolved(&mut self) -> (warn: Option<u64>)
        requires
            old(self).well_formed(),
            old(self).can_count(),
        ensures
            final(self).well_formed(),
            final(self).state() == old(self).state().dropped_unresolved(),
            warn == final(self).state().drop_warning(),
    {
        self.dropped_since_warn = self.dropped_since_warn + 1;
        self.unresolved_dropped = self.unresolved_dropped + 1;
        if self.dropped_since_warn % DROP_WARN_INTERVAL == 0 {
            Some(self.dropped_since_warn)
        } else {
            None
        }
    }

    /// Offer one packet at time `now` (nanoseconds of a monotonic clock).
    pub fn send(&mut self, now: u64) -> (action: ForwardAction<A>)
        requires
            old(self).well_formed(),
            old(self).can_count(),
        ensures
            final(self).well_formed(),
            match old(self).state().resolved {
                Some(dest) => {
                    &&& action == ForwardAction::Transmit(dest)
                    &&& final(self).state() == old(self).state().offered()
                },
                None => if old(self).state().resolution_due(now) {
                    &&& action == ForwardAction::<A>::Resolve
                    &&& final(self).state() == (ForwarderState {
                        last_resolve_attempt: Some(now),
                        ..old(self).state().offered()
                    })
                } else {
                    &&& final(self).state() == old(self).state().offered().dropped_unresolved()
                    &&& action == ForwardAction::<A>::Drop(final(self).state().drop_warning())
                },
            },
    {
        self.packet_count = self.packet_count.wrapping_add(1);
        if self.resolve_if_needed(now) {
            return ForwardAction::Resolve;
        }
        match self.resolved {
            Some(dest) => ForwardAction::Transmit(dest),
            None => ForwardAction::Drop(self.drop_unresolved()),
        }
    }

    /// Take in what a resolution attempt gave, and go on with the packet at hand.
    pub fn resolution(&mut self, found: Option<A>) -> (action: ForwardAction<A>)
        requires
            old(self).well_formed(),
            old(self).can_count(),
            old(self).state().resolved is None,
        ensures
            final(self).well_formed(),
            match found {
                Some(dest) => {
                    &&& action == ForwardAction::Transmit(dest)
                    &&& final(self).state() == (ForwarderState {
                        resolved: Some(dest),
                        dropped_since_warn: 0,
                        ..old(self).state()
                    })
                },
                None => {
                    &&& final(self).state() == old(self).state().dropped_unresolved()
                    &&& action == ForwardAction::<A>::Drop(final(self).state().drop_warning())
                },
            },
    {
        match found {
            Some(dest) => {
                self.resolved = Some(dest);
                self.dropped_since_warn = 0;
                ForwardAction::Transmit(dest)
            },
            None => ForwardAction::Drop(self.drop_unresolved()),
        }
    }

    /// Count one packet lost to send-buffer backpressure.
    ///
    /// Returns the size of the just-finished reporting window when the periodic
    /// warning is due, `None` otherwise.
    pub fn record_send_drop(&mut self) -> (window: Option<u64>)
        requires
            old(self).well_formed(),
            old(self).can_count(),
        ensures
            final(self).well_formed(),
            final(self).state() == old(self).state().dropped_by_send(),
            window == if final(self).state().send_dropped_since_warn == 0 {
                Some(SEND_DROP_WARN_INTERVAL)
            } else {
                None::<u64>
            },
    {
        self.send_dropped = self.send_dropped + 1;
        self.send_dropped_since_warn = self.send_dropped_since_warn + 1;
        if self.send_dropped_since_warn >= SEND_DROP_WARN_INTERVAL {
            let window: u64 = self.send_dropped_since_warn;
            self.send_dropped_since_warn = 0;
            return Some(window);
        }
        None
    }

    /// Take in how the send of a packet of `len` bytes ended.
    pub fn transmitted(&mut self, outcome: SendOutcome, len: usize) -> (report: SendReport)
        requires
            old(self).well_formed(),
            old(self).can_count(),
        ensures
            final(self).well_formed(),
            match outcome {
                SendOutcome::Sent(n) => {
                    &&& final(self).state() == old(self).state()
                    &&& report == if n == len {
                        SendReport::Complete
                    } else {
                        SendReport::Partial
                    }
                },
                SendOutcome::WouldBlock => {
                    &&& final(self).state() == old(self).state().dropped_by_send()
                    &&& report == SendReport::Backpressure(
                        if final(self).state().send_dropped_since_warn == 0 {
                            Some(SEND_DROP_WARN_INTERVAL)
                        } else {
                            None::<u64>
                        },
                    )
                },
                SendOutcome::Failed => {
                    &&& final(self).state() == old(self).state()
                    &&& report == SendReport::Error
                },
            },
    {
        match outcome {
            SendOutcome::Sent(n) => if n == len {
                SendReport::Complete
            } else {
                SendReport::Partial
            },
            SendOutcome::WouldBlock => SendReport::Backpressure(self.record_send_drop()),
            SendOutcome::Failed => SendReport::Error,
        }
    }
}

/// Every drop is counted once and for all: no step takes a drop back, and only a
/// dropped packet adds one.
pub proof fn drops_are_monotonic<A>(s: ForwarderState<A>)
    ensures
        s.offered().total_dropped() == s.total_dropped(),
        s.dropped_unresolved().total_dropped() == s.total_dropped() + 1,
        s.dropped_by_send().total_dropped() == s.total_dropped() + 1,
{
}

/// The state after `n` further packets were lost to a full send buffer.
pub open spec fn after_send_drops<A>(s: ForwarderState<A>, n: nat) -> ForwarderState<A>
    decreases n,
{
    if n == 0 {
        s
    } else {
        after_send_drops(s, (n - 1) as nat).dropped_by_send()
    }
}

/// Backpressure is reported once per full window: from a window boundary, `n`
/// losses leave `n` modulo the interval in the open window.
pub proof fn backpressure_is_reported_once_per_window<A>(s: ForwarderState<A>, n: nat)
    requires
        s.send_dropped_since_warn == 0,
    ensures
        after_send_drops(s, n).send_dropped == s.send_dropped + n,
        after_send_drops(s, n).send_dropped_since_warn == n % (SEND_DROP_WARN_INTERVAL as nat),
    decreases n,
{
    if n > 0 {
        backpressure_is_reported_once_per_window(s, (n - 1) as nat);
    }
}

/// A destination without an address is looked up again ten seconds after the last
/// attempt, and not before; one with an address never is.
pub proof fn lookups_are_ten_seconds_apart<A>(s: ForwarderState<A>, now: u64)
    ensures
        s.resolved is Some ==> !s.resolution_due(now),
        s.resolved is None && s.last_resolve_attempt is None ==> s.resolution_due(now),
        s.resolved is None && s.last_resolve_attempt is Some ==> (s.resolution_due(now)
            <==> s.last_resolve_attempt.unwrap() + 10_000_000_000 <= now),
{
}

/// A drop for want of an address is counted, and every thousandth one since the
/// last resolution is reported with its number; nothing else changes.
pub proof fn unresolved_drops_are_counted_and_reported<A>(s: ForwarderState<A>)
    requires
        0 <= s.dropped_since_warn < u64::MAX,
    ensures
        s.dropped_unresolved().dropped_since_warn == s.dropped_since_warn + 1,
        s.dropped_unresolved().unresolved_dropped == s.unresolved_dropped + 1,
        s.dropped_unresolved().send_dropped == s.send_dropped,
        s.dropped_unresolved().send_dropped_since_warn == s.send_dropped_since_warn,
        s.dropped_unresolved().resolved == s.resolved,
        s.dropped_unresolved().last_resolve_attempt == s.last_resolve_attempt,
        s.dropped_unresolved().packet_count == s.packet_count,
        s.dropped_unresolved().drop_warning() == if (s.dropped_since_warn + 1) % 1000 == 0 {
            Some((s.dropped_since_warn + 1) as u64)
        } else {
            None::<u64>
        },
{
}

/// A packet lost to a full send buffer is counted, in all and in the window, which
/// starts anew with every thousandth one; nothing else changes.
pub proof fn send_drops_are_counted_in_windows_of_a_thousand<A>(s: ForwarderState<A>)
    requires
        0 <= s.send_dropped_since_warn < 1000,
    ensures
        s.dropped_by_send().send_dropped == s.send_dropped + 1,
        s.dropped_by_send().send_dropped_since_warn == (s.send_dropped_since_warn + 1) % 1000,
        s.dropped_by_send().dropped_since_warn == s.dropped_since_warn,
        s.dropped_by_send().unresolved_dropped == s.unresolved_dropped,
        s.dropped_by_send().resolved == s.resolved,
        s.dropped_by_send().packet_count == s.packet_count,
        s.total_dropped() == s.unresolved_dropped + s.send_dropped,
{
}

} // verus!

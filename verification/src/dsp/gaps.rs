//! Sequence-gap tracking for a sample-counting stream.
//!
//! The sample-count timestamp of consecutive packets reveals exactly how many
//! samples went missing between them. This tracker turns that into counters and
//! explicit [`GapMarker`]s.

use vstd::prelude::*;

verus! {

/// A detected discontinuity in the sample stream.
#[derive(Debug, Clone, Copy, PartialEq, Eq, Structural)]
pub struct GapMarker {
    /// Sample counter at which the stream resumed.
    pub at_sample: u64,
    /// How many samples are missing before it.
    pub missing_samples: u64,
}

/// Tracks continuity of a sample-counting stream.
#[derive(Debug, Clone, Copy)]
pub struct GapTracker {
    next_expected: Option<u64>,
    gaps: u64,
    gap_samples: u64,
    resets: u64,
    last_marker: Option<GapMarker>,
}

/// What a tracker knows of its stream.
pub struct Continuity {
    /// Sample counter expected next, once a packet has been seen.
    pub next_expected: Option<u64>,
    /// Forward discontinuities.
    pub gaps: int,
    /// Samples lost to them.
    pub gap_samples: int,
    /// Times the counter went backwards.
    pub resets: int,
    /// The most recent gap.
    pub last_marker: Option<GapMarker>,
}

/// The counter after the last sample of a packet, at most `u64::MAX`.
pub open spec fn packet_end(counter: u64, samples: u64) -> u64 {
    if counter + samples > u64::MAX {
        u64::MAX
    } else {
        (counter + samples) as u64
    }
}

impl Continuity {
    /// Nothing seen yet.
    pub open spec fn start() -> Continuity {
        Continuity { next_expected: None, gaps: 0, gap_samples: 0, resets: 0, last_marker: None }
    }

    /// The gap that a packet starting at `counter` reveals.
    pub open spec fn gap_before(self, counter: u64) -> Option<GapMarker> {
        match self.next_expected {
            Some(expected) => if counter > expected {
                Some(GapMarker { at_sample: counter, missing_samples: (counter - expected) as u64 })
            } else {
                None
            },
            None => None,
        }
    }

    /// A packet starting at `counter` goes backwards.
    pub open spec fn goes_back(self, counter: u64) -> bool {
        self.next_expected matches Some(expected) && counter < expected
    }

    /// What is known after a packet of `samples` samples starting at `counter`.
    pub open spec fn after(self, counter: u64, samples: u64) -> Continuity {
        let seen = Continuity { next_expected: Some(packet_end(counter, samples)), ..self };
        match self.gap_before(counter) {
            Some(marker) => Continuity {
                gaps: self.gaps + 1,
                gap_samples: self.gap_samples + marker.missing_samples,
                last_marker: Some(marker),
                ..seen
            },
            None => if self.goes_back(counter) {
                Continuity { resets: self.resets + 1, ..seen }
            } else {
                seen
            },
        }
    }

    /// No discontinuity has been observed.
    pub open spec fn contiguous(self) -> bool {
        self.gaps == 0 && self.resets == 0
    }

    /// The counters fit in 64 bits.
    pub open spec fn countable(self) -> bool {
        self.gaps <= u64::MAX && self.gap_samples <= u64::MAX && self.resets <= u64::MAX
    }
}

impl GapTracker {
    /// What the tracker knows.
    pub closed spec fn state(&self) -> Continuity {
        Continuity {
            next_expected: self.next_expected,
            gaps: self.gaps as int,
            gap_samples: self.gap_samples as int,
            resets: self.resets as int,
            last_marker: self.last_marker,
        }
    }

    /// A tracker that has seen nothing.
    pub fn new() -> (t: Self)
        ensures
            t.state() == Continuity::start(),
    {
        GapTracker { next_expected: None, gaps: 0, gap_samples: 0, resets: 0, last_marker: None }
    }

    /// Whether the counters still fit after a packet starting at `counter`.
    pub fn can_observe(&self, counter: u64) -> (r: bool)
        ensures
            forall|samples: u64| r == #[trigger] self.state().after(counter, samples).countable(),
    {
        match self.next_expected {
            None => true,
            Some(expected) => {
                if counter > expected {
                    self.gaps < u64::MAX && self.gap_samples.checked_add(counter - expected).is_some()
                } else if counter < expected {
                    self.resets < u64::MAX
                } else {
                    true
                }
            },
        }
    }

    /// Samples missing before a packet that starts at `counter`, if any.
    pub fn missing_before(&self, counter: u64) -> (missing: Option<u64>)
        ensures
            missing == match self.state().gap_before(counter) {
                Some(marker) => Some(marker.missing_samples),
                None => None,
            },
    {
        match self.next_expected {
            Some(expected) => if counter > expected {
                Some(counter - expected)
            } else {
                None
            },
            None => None,
        }
    }

    /// Observe a packet: `counter` is its first sample's counter, `samples` how
    /// many samples it carries.
    ///
    /// Returns a [`GapMarker`] when this packet skipped samples, `None` when the
    /// stream is contiguous or went backwards, which is counted as a reset.
    pub fn observe(&mut self, counter: u64, samples: u64) -> (marker: Option<GapMarker>)
        requires
            old(self).state().after(counter, samples).countable(),
        ensures
            marker == old(self).state().gap_before(counter),
            final(self).state() == old(self).state().after(counter, samples),
    {
        let end: u64 = counter.saturating_add(samples);
        let seen: Option<u64> = self.next_expected;
        self.next_expected = Some(end);
        match seen {
            None => None,
            Some(expected) => {
                if counter == expected {
                    None
                } else if counter > expected {
                    let missing: u64 = counter - expected;
                    self.gaps = self.gaps + 1;
                    self.gap_samples = self.gap_samples + missing;
                    let marker = GapMarker { at_sample: counter, missing_samples: missing };
                    self.last_marker = Some(marker);
                    Some(marker)
                } else {
                    // Out-of-order delivery or a restarted producer: not a gap.
                    self.resets = self.resets + 1;
                    None
                }
            },
        }
    }

    /// Number of forward discontinuities seen.
    pub fn gaps(&self) -> (n: u64)
        ensures
            n == self.state().gaps,
    {
        self.gaps
    }

    /// Total samples lost to those discontinuities.
    pub fn gap_samples(&self) -> (n: u64)
        ensures
            n == self.state().gap_samples,
    {
        self.gap_samples
    }

    /// Number of backwards counter movements.
    pub fn resets(&self) -> (n: u64)
        ensures
            n == self.state().resets,
    {
        self.resets
    }

    /// Most recent gap, if any.
    pub fn last_marker(&self) -> (m: Option<GapMarker>)
        ensures
            m == self.state().last_marker,
    {
        self.last_marker
    }

    /// True when no discontinuity has been observed.
    pub fn is_contiguous(&self) -> (r: bool)
        ensures
            r == self.state().contiguous(),
    {
        self.gaps == 0 && self.resets == 0
    }
}

impl Default for GapTracker {
    fn default() -> (t: Self)
        ensures
            t.state() == Continuity::start(),
    {
        GapTracker::new()
    }
}

/// What is known after packets given as `(counter, samples)`, in order.
pub open spec fn observed(packets: Seq<(u64, u64)>) -> Continuity
    decreases packets.len(),
{
    if packets.len() == 0 {
        Continuity::start()
    } else {
        observed(packets.drop_last()).after(packets.last().0, packets.last().1)
    }
}

/// Each packet starts where the one before it ended.
pub open spec fn chained(packets: Seq<(u64, u64)>) -> bool {
    forall|k: int|
        0 < k < packets.len() ==> (#[trigger] packets[k]).0 == packet_end(
            packets[k - 1].0,
            packets[k - 1].1,
        )
}

/// Total samples carried.
pub open spec fn carried(packets: Seq<(u64, u64)>) -> int
    decreases packets.len(),
{
    if packets.len() == 0 {
        0
    } else {
        carried(packets.drop_last()) + packets.last().1
    }
}

/// Tracking counts no less than it did before.
pub proof fn lemma_counts_grow(packets: Seq<(u64, u64)>)
    requires
        packets.len() > 0,
    ensures
        observed(packets).gaps >= observed(packets.drop_last()).gaps >= 0,
        observed(packets).resets >= observed(packets.drop_last()).resets >= 0,
        observed(packets).gap_samples >= observed(packets.drop_last()).gap_samples >= 0,
    decreases packets.len(),
{
    if packets.len() > 1 {
        lemma_counts_grow(packets.drop_last());
    }
}

/// The next expected counter is the end of the last packet.
proof fn lemma_next_expected(packets: Seq<(u64, u64)>)
    requires
        packets.len() > 0,
    ensures
        observed(packets).next_expected == Some(packet_end(packets.last().0, packets.last().1)),
{
}

/// A stream is contiguous exactly when each packet starts where the one before
/// it ended; then nothing is reported at all.
pub proof fn contiguous_means_chained(packets: Seq<(u64, u64)>)
    ensures
        observed(packets).contiguous() <==> chained(packets),
        chained(packets) ==> observed(packets).gap_samples == 0 && observed(packets).last_marker is None,
    decreases packets.len(),
{
    if packets.len() > 0 {
        let before = packets.drop_last();
        contiguous_means_chained(before);
        lemma_counts_grow(packets);
        if before.len() > 0 {
            lemma_next_expected(before);
            assert(before.last() == packets[packets.len() - 2]);
        }
        if chained(packets) {
            assert forall|k: int| 0 < k < before.len() implies (#[trigger] before[k]).0 == packet_end(
                before[k - 1].0,
                before[k - 1].1,
            ) by {
                assert(packets[k].0 == packet_end(packets[k - 1].0, packets[k - 1].1));
            }
        }
        if chained(before) && observed(packets).contiguous() {
            assert forall|k: int| 0 < k < packets.len() implies (#[trigger] packets[k]).0
                == packet_end(packets[k - 1].0, packets[k - 1].1) by {
                if k < before.len() {
                    assert(before[k].0 == packet_end(before[k - 1].0, before[k - 1].1));
                }
            }
        }
    }
}

/// Loss is measured exactly: while the counter only moves forward, the samples
/// received and the samples counted as missing cover the whole span of the
/// stream.
pub proof fn received_and_missing_cover_the_span(packets: Seq<(u64, u64)>)
    requires
        packets.len() > 0,
        observed(packets).resets == 0,
        forall|k: int|
            0 <= k < packets.len() ==> (#[trigger] packets[k]).0 + packets[k].1 <= u64::MAX,
    ensures
        packets.last().0 + packets.last().1 == packets[0].0 + carried(packets) + observed(
            packets,
        ).gap_samples,
    decreases packets.len(),
{
    let before = packets.drop_last();
    lemma_counts_grow(packets);
    assert(packets[packets.len() - 1].0 + packets[packets.len() - 1].1 <= u64::MAX);
    if before.len() > 0 {
        assert forall|k: int| 0 <= k < before.len() implies (#[trigger] before[k]).0 + before[k].1
            <= u64::MAX by {
            assert(packets[k].0 + packets[k].1 <= u64::MAX);
        }
        received_and_missing_cover_the_span(before);
        lemma_next_expected(before);
    } else {
        assert(observed(before) == Continuity::start());
        assert(carried(before) == 0);
    }
}

/// Where a packet stands decides what is made of it: right where it was expected,
/// nothing; ahead, a gap of as many samples as it is ahead; behind, a reset. Either
/// way its end is expected next. The first packet is never out of place.
pub proof fn a_packet_is_judged_by_where_it_stands(s: Continuity, counter: u64, samples: u64)
    ensures
        ({
            let t = s.after(counter, samples);
            let marker = s.gap_before(counter);
            &&& t.next_expected == Some(
                if counter + samples > u64::MAX {
                    u64::MAX
                } else {
                    (counter + samples) as u64
                },
            )
            &&& match s.next_expected {
                None => marker is None && t.gaps == s.gaps && t.gap_samples == s.gap_samples && t.resets
                    == s.resets && t.last_marker == s.last_marker,
                Some(e) => {
                    &&& counter == e ==> marker is None && t.gaps == s.gaps && t.gap_samples
                        == s.gap_samples && t.resets == s.resets && t.last_marker == s.last_marker
                    &&& counter > e ==> {
                        &&& marker matches Some(g) && g.at_sample == counter && g.missing_samples
                            == counter - e
                        &&& t.gaps == s.gaps + 1
                        &&& t.gap_samples == s.gap_samples + (counter - e)
                        &&& t.resets == s.resets
                        &&& t.last_marker == marker
                    }
                    &&& counter < e ==> marker is None && t.gaps == s.gaps && t.gap_samples
                        == s.gap_samples && t.resets == s.resets + 1 && t.last_marker == s.last_marker
                },
            }
        }),
        s.contiguous() <==> (s.gaps == 0 && s.resets == 0),
        s.countable() <==> (s.gaps <= u64::MAX && s.gap_samples <= u64::MAX && s.resets <= u64::MAX),
{
}

} // verus!

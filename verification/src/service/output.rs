//! Where narrowband samples go.

use vstd::prelude::*;
use crate::dsp::iq::{sc16_to_iq, Iq};
#[allow(unused_imports)]
use crate::dsp::decimator::are_samples_of;
use crate::ieee::Real64;

verus! {

/// One packet as it was handed to a sink.
#[verifier::ext_equal]
pub struct SentPacket {
    /// Interleaved sc16 components.
    pub samples: Seq<i16>,
    /// Time of the first sample in seconds.
    pub ts: Real64,
    /// Narrowband sample rate.
    pub rate: Real64,
}

/// Where narrowband samples go.
///
/// A verified sink says what its record of packets and drops is. The default
/// records below are one value for every sink, so no verified sink can keep them:
/// it could not show that `send` adds a packet. They are there for sinks outside
/// verification, of which nothing that is proved of `sent` and `dropped` speaks.
pub trait OutputSink {
    /// Every packet that was handed over, in order.
    closed spec fn sent(&self) -> Seq<SentPacket> {
        arbitrary()
    }

    /// Packets dropped so far.
    closed spec fn dropped(&self) -> u64 {
        arbitrary()
    }

    /// Send one narrowband packet: interleaved sc16, its first sample's timestamp
    /// in seconds, and the narrowband sample rate.
    fn send(&mut self, interleaved_sc16: &[i16], ts_secs: Real64, sample_rate: Real64)
        ensures
            final(self).sent() == old(self).sent().push(
                (SentPacket { samples: interleaved_sc16@, ts: ts_secs, rate: sample_rate }),
            ),
            final(self).dropped() >= old(self).dropped(),
    ;

    /// Packets dropped so far by this sink. Never decreases.
    fn dropped_packets(&self) -> (n: u64)
        ensures
            n == self.dropped(),
    ;
}

/// Collects output in memory, for callers that want the narrowband samples
/// without a socket.
pub struct CollectingSink {
    /// One entry per sent packet: interleaved sc16 and first-sample timestamp.
    pub packets: Vec<(Vec<i16>, Real64)>,
    /// Narrowband sample rate seen on the last send.
    pub rate: Real64,
    /// Narrowband sample rate of each send.
    pub rates: Ghost<Map<int, Real64>>,
}

impl Default for CollectingSink {
    fn default() -> (s: Self)
        ensures
            s.sent() == Seq::<SentPacket>::empty(),
            s.packets@.len() == 0,
            s.rate.bits == 0,
    {
        let s = CollectingSink {
            packets: Vec::new(),
            rate: Real64 { bits: 0 },
            rates: Ghost(Map::empty()),
        };
        assert(s.sent() =~= Seq::<SentPacket>::empty());
        s
    }
}

impl OutputSink for CollectingSink {
    open spec fn sent(&self) -> Seq<SentPacket> {
        Seq::new(
            self.packets@.len(),
            |k: int|
                SentPacket {
                    samples: self.packets@[k].0@,
                    ts: self.packets@[k].1,
                    rate: self.rates@[k],
                },
        )
    }

    open spec fn dropped(&self) -> u64 {
        0
    }

    fn send(&mut self, interleaved_sc16: &[i16], ts_secs: Real64, sample_rate: Real64)
        ensures
            final(self).rate == sample_rate,
            final(self).packets@.len() == old(self).packets@.len() + 1,
            final(self).packets@.drop_last() == old(self).packets@,
            final(self).packets@.last().0@ == interleaved_sc16@,
            final(self).packets@.last().1 == ts_secs,
    {
        let ghost before = *self;
        let mut copy: Vec<i16> = Vec::new();
        copy.extend_from_slice(interleaved_sc16);
        assert(copy@ =~= interleaved_sc16@);
        self.rate = sample_rate;
        self.rates = Ghost(before.rates@.insert(before.packets@.len() as int, sample_rate));
        self.packets.push((copy, ts_secs));
        proof {
            assert(self.packets@.drop_last() =~= before.packets@);
            assert(self.sent() =~= before.sent().push(
                (SentPacket { samples: interleaved_sc16@, ts: ts_secs, rate: sample_rate }),
            ));
        }
    }

    fn dropped_packets(&self) -> (n: u64) {
        0
    }
}

/// The sequences one after the other.
pub open spec fn flattened(parts: Seq<Seq<Iq>>) -> Seq<Iq>
    decreases parts.len(),
{
    if parts.len() == 0 {
        seq![]
    } else {
        flattened(parts.drop_last()) + parts.last()
    }
}

/// `parts` are the normalized samples of `packets`, packet by packet.
pub open spec fn are_parts_of(parts: Seq<Seq<Iq>>, packets: Seq<(Vec<i16>, Real64)>) -> bool {
    &&& parts.len() == packets.len()
    &&& forall|k: int|
        0 <= k < parts.len() ==> are_samples_of(#[trigger] parts[k], packets[k].0@)
}

impl CollectingSink {
    /// All narrowband samples received, in order.
    pub fn samples(&self) -> (all: Vec<Iq>)
        ensures
            exists|parts: Seq<Seq<Iq>>| #[trigger]
                are_parts_of(parts, self.packets@) && all@ == flattened(parts),
    {
        let mut all: Vec<Iq> = Vec::new();
        let ghost mut parts: Seq<Seq<Iq>> = seq![];
        let mut k: usize = 0;
        while k < self.packets.len()
            invariant
                k <= self.packets@.len(),
                parts.len() == k,
                forall|j: int|
                    0 <= j < k ==> are_samples_of(#[trigger] parts[j], self.packets@[j].0@),
                all@ == flattened(parts),
            decreases self.packets.len() - k,
        {
            let iq = sc16_to_iq(self.packets[k].0.as_slice());
            all.extend_from_slice(iq.as_slice());
            proof {
                let before = parts;
                parts = parts.push(iq@);
                assert(parts.drop_last() =~= before);
                assert(all@ =~= flattened(parts));
            }
            k = k + 1;
        }
        assert(are_parts_of(parts, self.packets@));
        all
    }

    /// Timestamps of each packet, in order.
    pub fn timestamps(&self) -> (ts: Vec<Real64>)
        ensures
            ts@.len() == self.packets@.len(),
            forall|k: int| 0 <= k < ts@.len() ==> #[trigger] ts@[k] == self.packets@[k].1,
    {
        let mut ts: Vec<Real64> = Vec::new();
        let mut k: usize = 0;
        while k < self.packets.len()
            invariant
                k <= self.packets@.len(),
                ts@.len() == k,
                forall|j: int| 0 <= j < k ==> #[trigger] ts@[j] == self.packets@[j].1,
            decreases self.packets.len() - k,
        {
            ts.push(self.packets[k].1);
            k = k + 1;
        }
        ts
    }
}

} // verus!

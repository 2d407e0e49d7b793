//! Walking buffers of concatenated packets.

use vstd::prelude::*;
use vstd::slice::slice_subrange;
use crate::bytes::read_u32;
#[allow(unused_imports)]
use crate::bytes::{be_u32, be_u32_reads_bytes32, bytes32};
use super::packet::{parse, Packet, ParseError, HEADER_BYTES};
#[allow(unused_imports)]
use super::packet::{declared_bytes, frame_bytes, frames_are_word_aligned, header_word};
#[allow(unused_imports)]
use super::packet::{reads_as, MAX_FRAMED_SAMPLES};

verus! {

/// Walks a buffer containing one or more concatenated packets, such as a
/// fixture file or a receive buffer of back-to-back datagrams.
///
/// Its view is the part of the buffer that is still to be walked.
pub struct PacketCursor<'a> {
    rest: &'a [u8],
}

impl<'a> View for PacketCursor<'a> {
    type V = Seq<u8>;

    closed spec fn view(&self) -> Seq<u8> {
        self.rest@
    }
}

/// Bytes that the first packet of `rest` declares.
pub open spec fn first_len(rest: Seq<u8>) -> int {
    declared_bytes(be_u32(rest, 0))
}

/// Why no packet can be cut from the front of a non-empty `rest`, if so.
pub open spec fn framing_fault(rest: Seq<u8>) -> Option<ParseError> {
    if rest.len() < HEADER_BYTES {
        Some(ParseError::TooShort { got: rest.len() as usize })
    } else if first_len(rest) > rest.len() {
        Some(
            ParseError::LengthMismatch {
                declared: first_len(rest) as usize,
                actual: rest.len() as usize,
            },
        )
    } else {
        None
    }
}

impl<'a> PacketCursor<'a> {
    /// A cursor at the start of `buf`.
    pub fn new(buf: &'a [u8]) -> (c: Self)
        ensures
            c@ == buf@,
    {
        PacketCursor { rest: buf }
    }

    /// True when every byte has been consumed.
    pub fn is_exhausted(&self) -> (r: bool)
        ensures
            r == (self@.len() == 0),
    {
        self.rest.len() == 0
    }

    /// Cut the next packet off the buffer without reading its fields, advancing
    /// past it. `None` at the end of the buffer; a tail that holds no complete
    /// packet is reported once and consumed.
    pub fn next_slice(&mut self) -> (r: Option<Result<&'a [u8], ParseError>>)
        ensures
            r is None <==> old(self)@.len() == 0,
            r is None ==> final(self)@ == old(self)@,
            r matches Some(Err(e)) ==> framing_fault(old(self)@) == Some(e) && final(self)@.len() == 0,
            r matches Some(Ok(s)) ==> {
                &&& framing_fault(old(self)@) is None
                &&& s@ == old(self)@.take(first_len(old(self)@))
                &&& final(self)@ == old(self)@.skip(first_len(old(self)@))
            },
            r is Some ==> final(self)@.len() < old(self)@.len(),
    {
        let rest = self.rest;
        let len: usize = rest.len();
        if len == 0 {
            return None;
        }
        if len < HEADER_BYTES {
            self.rest = slice_subrange(rest, len, len);
            return Some(Err(ParseError::TooShort { got: len }));
        }
        let header: u32 = read_u32(rest, 0);
        let declared: usize = ((header % 65536) as usize + 1) * 4;
        if declared > len {
            self.rest = slice_subrange(rest, len, len);
            return Some(Err(ParseError::LengthMismatch { declared, actual: len }));
        }
        let packet_buf = slice_subrange(rest, 0, declared);
        self.rest = slice_subrange(rest, declared, len);
        assert(packet_buf@ =~= rest@.take(declared as int));
        assert(self.rest@ =~= rest@.skip(declared as int));
        Some(Ok(packet_buf))
    }

    /// Parse the next packet, advancing past it. `None` at the end of the
    /// buffer.
    pub fn next_packet(&mut self) -> (r: Option<Result<Packet<'a>, ParseError>>)
        ensures
            r is None <==> old(self)@.len() == 0,
            r is None ==> final(self)@ == old(self)@,
            r matches Some(p) ==> match framing_fault(old(self)@) {
                Some(e) => p == Err::<Packet<'a>, ParseError>(e) && final(self)@.len() == 0,
                None => {
                    &&& reads_as(old(self)@.take(first_len(old(self)@)), p)
                    &&& final(self)@ == old(self)@.skip(first_len(old(self)@))
                },
            },
            r is Some ==> final(self)@.len() < old(self)@.len(),
    {
        match self.next_slice() {
            None => None,
            Some(Err(e)) => Some(Err(e)),
            Some(Ok(packet_buf)) => Some(parse(packet_buf)),
        }
    }
}

/// Everything a cursor hands out over `rest`: the packets in order, and last the
/// fault of a tail that holds no complete packet.
pub open spec fn walk(rest: Seq<u8>) -> Seq<Result<Seq<u8>, ParseError>>
    decreases rest.len(),
{
    if rest.len() == 0 {
        seq![]
    } else {
        match framing_fault(rest) {
            Some(e) => seq![Err(e)],
            None => seq![Ok(rest.take(first_len(rest)))] + walk(rest.skip(first_len(rest))),
        }
    }
}

/// A buffer that is exactly one packet long by its own size field.
pub open spec fn well_framed(b: Seq<u8>) -> bool {
    b.len() >= HEADER_BYTES && first_len(b) == b.len()
}

/// Packets one after the other.
pub open spec fn concatenation(packets: Seq<Seq<u8>>) -> Seq<u8>
    decreases packets.len(),
{
    if packets.len() == 0 {
        seq![]
    } else {
        packets[0] + concatenation(packets.skip(1))
    }
}

/// A packet file is walked packet by packet: over concatenated packets a cursor
/// hands out exactly those packets, in order, and nothing else.
pub proof fn walk_recovers_the_packets(packets: Seq<Seq<u8>>)
    requires
        forall|k: int| 0 <= k < packets.len() ==> well_framed(#[trigger] packets[k]),
    ensures
        walk(concatenation(packets)) == packets.map_values(|p: Seq<u8>| Ok::<Seq<u8>, ParseError>(p)),
    decreases packets.len(),
{
    let all = concatenation(packets);
    let wrap = |p: Seq<u8>| Ok::<Seq<u8>, ParseError>(p);
    if packets.len() > 0 {
        let first = packets[0];
        let others = packets.skip(1);
        assert forall|k: int| 0 <= k < others.len() implies well_framed(#[trigger] others[k]) by {
            assert(others[k] == packets[k + 1]);
        }
        walk_recovers_the_packets(others);
        assert(well_framed(first));
        assert(be_u32(all, 0) == be_u32(first, 0));
        assert(all.take(first.len() as int) =~= first);
        assert(all.skip(first.len() as int) =~= concatenation(others));
        assert(packets.map_values(wrap) =~= seq![wrap(first)] + others.map_values(wrap));
    } else {
        assert(packets.map_values(wrap) =~= seq![]);
    }
}

/// The bytes of the packets among `steps`, one after the other.
pub open spec fn delivered(steps: Seq<Result<Seq<u8>, ParseError>>) -> Seq<u8>
    decreases steps.len(),
{
    if steps.len() == 0 {
        seq![]
    } else {
        match steps[0] {
            Ok(p) => p + delivered(steps.skip(1)),
            Err(_) => seq![],
        }
    }
}

/// No byte is lost silently: what a cursor hands out is the front of the buffer,
/// in order, and unless the last step reports a fault it is all of the buffer.
pub proof fn walk_loses_nothing_silently(rest: Seq<u8>)
    ensures
        delivered(walk(rest)).is_prefix_of(rest),
        walk(rest).len() > 0 && walk(rest).last() is Err || delivered(walk(rest)) == rest,
    decreases rest.len(),
{
    if rest.len() > 0 && framing_fault(rest) is None {
        let n = first_len(rest);
        let tail = rest.skip(n);
        walk_loses_nothing_silently(tail);
        assert(walk(rest).skip(1) =~= walk(tail));
        assert(rest =~= rest.take(n) + tail);
        if walk(tail).len() > 0 {
            assert(walk(rest).last() == walk(tail).last());
        }
    }
}

/// A framing fault ends the walk: what comes after it is not guessed at.
pub proof fn a_framing_fault_ends_the_walk(rest: Seq<u8>, k: int)
    requires
        0 <= k < walk(rest).len(),
        walk(rest)[k] is Err,
    ensures
        k == walk(rest).len() - 1,
    decreases rest.len(),
{
    if framing_fault(rest) is None {
        let tail = rest.skip(first_len(rest));
        assert(walk(rest)[k] == walk(tail)[k - 1]);
        a_framing_fault_ends_the_walk(tail, k - 1);
    }
}

/// Every packet that is built is well framed, while the size field can hold its
/// length.
pub proof fn built_packets_are_well_framed(samples: Seq<i16>, ts_int: u32, ts_frac: u64)
    requires
        samples.len() / 2 <= MAX_FRAMED_SAMPLES,
    ensures
        well_framed(frame_bytes(samples, ts_int, ts_frac)),
{
    let b = frame_bytes(samples, ts_int, ts_frac);
    let h = header_word(samples.len() / 2);
    frames_are_word_aligned(samples, ts_int, ts_frac);
    be_u32_reads_bytes32(h);
    assert(be_u32(b, 0) == be_u32(bytes32(h), 0));
}

} // verus!

//! The wire format, byte by byte.

use vstd::prelude::*;
#[allow(unused_imports)]
use crate::bytes::{be_u16, be_u32, unsigned16};
#[allow(unused_imports)]
use super::cursor::{first_len, walk};
use super::packet::{Packet, ParseError};
#[allow(unused_imports)]
use super::packet::{components, frame_bytes, has_fields_of, header_word, lemma_frame_fields, lemma_payload_bytes, packet_fault};
#[allow(unused_imports)]
use super::packet::{payload_bytes, reads_as, whole_pairs};

verus! {

/// The bytes are exactly one packet: at least the header's twenty of them, of the
/// data type, without a trailer, and as many as the size field says.
pub open spec fn is_one_packet(buf: Seq<u8>) -> bool {
    &&& buf.len() >= 20
    &&& buf[0] / 16 == 1
    &&& buf[0] % 4 == 0
    &&& 4 * (256 * buf[2] + buf[3] + 1) == buf.len()
}

/// Parsing accepts exactly what is one packet.
pub proof fn exactly_one_packet_parses(buf: Seq<u8>)
    ensures
        packet_fault(buf) is None <==> is_one_packet(buf),
{
}

/// What is wrong with a buffer is said of the first thing that is wrong: its
/// length, its type, a trailer, or a size field that disagrees.
pub proof fn faults_name_what_is_wrong(buf: Seq<u8>)
    requires
        buf.len() <= usize::MAX,
    ensures
        buf.len() < 20 ==> packet_fault(buf) == Some(ParseError::TooShort { got: buf.len() as usize }),
        buf.len() >= 20 && buf[0] / 16 != 1 ==> packet_fault(buf) == Some(
            ParseError::UnsupportedPacketType((buf[0] / 16) as u32),
        ),
        buf.len() >= 20 && buf[0] / 16 == 1 && buf[0] % 4 != 0 ==> packet_fault(buf) == Some(
            ParseError::Trailerized,
        ),
        buf.len() >= 20 && buf[0] / 16 == 1 && buf[0] % 4 == 0 && 4 * (256 * buf[2] + buf[3] + 1)
            != buf.len() ==> packet_fault(buf) == Some(
            ParseError::LengthMismatch {
                declared: (4 * (256 * buf[2] + buf[3] + 1)) as usize,
                actual: buf.len() as usize,
            },
        ),
{
}

/// The fields of a header word, from its bytes.
proof fn lemma_header_bits(b0: int, b1: int, b2: int, b3: int)
    requires
        0 <= b0 < 256,
        0 <= b1 < 256,
        0 <= b2 < 256,
        0 <= b3 < 256,
    ensures
        ({
            let h = (b0 * 256 + b1) * 65536 + (b2 * 256 + b3);
            h / 0x1000_0000 == b0 / 16 && (h / 0x10_0000) % 4 == b1 / 16 % 4
        }),
{
    let h = (b0 * 256 + b1) * 65536 + (b2 * 256 + b3);
    assert(h / 0x10_0000 == b0 * 16 + b1 / 16);
    assert((b0 * 16 + b1 / 16) % 4 == b1 / 16 % 4);
}

/// A parsed packet holds the fields that stand in the bytes, most significant byte
/// first, and everything behind the twenty bytes of the header as its payload.
pub proof fn parsed_fields_stand_in_the_bytes(buf: Seq<u8>, r: Result<Packet, ParseError>)
    requires
        reads_as(buf, r),
        is_one_packet(buf),
    ensures
        r matches Ok(p) && {
            &&& p.packet_type == 1
            &&& p.stream_id == ((buf[4] * 256 + buf[5]) * 256 + buf[6]) * 256 + buf[7]
            &&& p.ts_int == ((buf[8] * 256 + buf[9]) * 256 + buf[10]) * 256 + buf[11]
            &&& p.ts_frac == ((((((buf[12] * 256 + buf[13]) * 256 + buf[14]) * 256 + buf[15]) * 256
                + buf[16]) * 256 + buf[17]) * 256 + buf[18]) * 256 + buf[19]
            &&& p.tsf == buf[1] / 16 % 4
            &&& p.payload@ == buf.subrange(20, buf.len() as int)
        },
{
    exactly_one_packet_parses(buf);
    let p = r->Ok_0;
    assert(has_fields_of(p, buf));
    assert(buf.skip(20) =~= buf.subrange(20, buf.len() as int));
    lemma_header_bits(buf[0] as int, buf[1] as int, buf[2] as int, buf[3] as int);
    assert(p.packet_type == 1);
    assert(p.tsf == buf[1] / 16 % 4);
    assert(p.stream_id == ((buf[4] * 256 + buf[5]) * 256 + buf[6]) * 256 + buf[7]);
    assert(p.ts_int == ((buf[8] * 256 + buf[9]) * 256 + buf[10]) * 256 + buf[11]);
}

/// Component `j` of a payload is the two's complement number in its bytes `2 * j`
/// and `2 * j + 1`.
pub proof fn components_are_signed_pairs_of_bytes(payload: Seq<u8>, j: int)
    requires
        0 <= j < payload.len() / 2,
    ensures
        components(payload).len() == payload.len() / 2,
        ({
            let v = payload[2 * j] * 256 + payload[2 * j + 1];
            components(payload)[j] == if v >= 32768 {
                v - 65536
            } else {
                v
            }
        }),
{
}

/// A built packet, byte by byte: data type and timestamp formats, the size in words
/// less one, no stream identifier, the timestamp, and the components in order, each
/// with its most significant byte first.
pub proof fn frames_are_laid_out_byte_by_byte(
    samples: Seq<i16>,
    ts_int: u32,
    ts_frac: u64,
    j: int,
)
    ensures
        ({
            let b = frame_bytes(samples, ts_int, ts_frac);
            let n = (samples.len() / 2) as int;
            &&& b.len() == 20 + 4 * n
            &&& b[0] == 0x10
            &&& b[1] == 0xD0
            &&& b[2] * 256 + b[3] == (n + 4) % 65536
            &&& b[4] == 0 && b[5] == 0 && b[6] == 0 && b[7] == 0
            &&& ((b[8] * 256 + b[9]) * 256 + b[10]) * 256 + b[11] == ts_int
            &&& ((((((b[12] * 256 + b[13]) * 256 + b[14]) * 256 + b[15]) * 256 + b[16]) * 256 + b[17])
                * 256 + b[18]) * 256 + b[19] == ts_frac
            &&& 0 <= j < 2 * n ==> b[20 + 2 * j] * 256 + b[21 + 2 * j] == if samples[j] < 0 {
                samples[j] + 65536
            } else {
                samples[j] as int
            }
        }),
{
    let b = frame_bytes(samples, ts_int, ts_frac);
    let n = samples.len() / 2;
    lemma_frame_fields(samples, ts_int, ts_frac);
    let h = header_word(n);
    assert(h == 0x10D0_0000 + (n + 4) % 65536);
    assert(be_u32(b, 0) == h);
    assert(be_u32(b, 4) == 0);
    if 0 <= j < 2 * n {
        let pairs = whole_pairs(samples);
        lemma_payload_bytes(pairs);
        let body = b.skip(20);
        assert(be_u16(payload_bytes(pairs), 2 * j) == unsigned16(pairs[j] as int));
        assert(body[2 * j] == b[20 + 2 * j]);
        assert(body[2 * j + 1] == b[21 + 2 * j]);
    }
}

/// A walk cuts off as many bytes as the size field in front declares, and goes on
/// behind them; a tail that is shorter than a header, or than it declares, is a
/// fault.
pub proof fn a_walk_cuts_by_the_size_field(rest: Seq<u8>)
    requires
        0 < rest.len() <= usize::MAX,
    ensures
        ({
            let declared = 4 * (256 * rest[2] + rest[3] + 1);
            if rest.len() < 20 {
                walk(rest) == seq![
                    Err::<Seq<u8>, ParseError>(ParseError::TooShort { got: rest.len() as usize }),
                ]
            } else if declared > rest.len() {
                walk(rest) == seq![
                    Err::<Seq<u8>, ParseError>(
                        ParseError::LengthMismatch {
                            declared: declared as usize,
                            actual: rest.len() as usize,
                        },
                    ),
                ]
            } else {
                &&& walk(rest).len() == 1 + walk(rest.subrange(declared, rest.len() as int)).len()
                &&& walk(rest)[0] == Ok::<Seq<u8>, ParseError>(rest.subrange(0, declared))
                &&& walk(rest).skip(1) == walk(rest.subrange(declared, rest.len() as int))
            }
        }),
{
    let declared = 4 * (256 * rest[2] + rest[3] + 1);
    if rest.len() >= 20 {
        assert(first_len(rest) == declared);
        if declared <= rest.len() {
            assert(rest.skip(declared) =~= rest.subrange(declared, rest.len() as int));
            assert(rest.take(declared) =~= rest.subrange(0, declared));
            assert(walk(rest).skip(1) =~= walk(rest.skip(declared)));
        }
    }
}

} // verus!

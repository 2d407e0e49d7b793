//! Big-endian integers in byte sequences.

use vstd::prelude::*;

verus! {

/// The unsigned 16-bit integer at offset `at`.
pub open spec fn be_u16(b: Seq<u8>, at: int) -> int {
    b[at] * 256 + b[at + 1]
}

/// The unsigned 32-bit integer at offset `at`.
pub open spec fn be_u32(b: Seq<u8>, at: int) -> int {
    be_u16(b, at) * 65536 + be_u16(b, at + 2)
}

/// The unsigned 64-bit integer at offset `at`.
pub open spec fn be_u64(b: Seq<u8>, at: int) -> int {
    be_u32(b, at) * 0x1_0000_0000 + be_u32(b, at + 4)
}

/// The two's complement reading of an unsigned 16-bit integer.
pub open spec fn signed16(v: int) -> int {
    if v >= 32768 {
        v - 65536
    } else {
        v
    }
}

/// The unsigned 16-bit integer with the two's complement reading `v`.
pub open spec fn unsigned16(v: int) -> int {
    if v < 0 {
        v + 65536
    } else {
        v
    }
}

/// The two bytes of an unsigned 16-bit integer, most significant first.
pub open spec fn bytes16(v: int) -> Seq<u8> {
    seq![(v / 256) as u8, (v % 256) as u8]
}

/// The four bytes of an unsigned 32-bit integer, most significant first.
pub open spec fn bytes32(v: int) -> Seq<u8> {
    bytes16(v / 65536) + bytes16(v % 65536)
}

/// The eight bytes of an unsigned 64-bit integer, most significant first.
pub open spec fn bytes64(v: int) -> Seq<u8> {
    bytes32(v / 0x1_0000_0000) + bytes32(v % 0x1_0000_0000)
}

/// Reading back what was written: the 32-bit encoding loses nothing.
pub proof fn be_u32_reads_bytes32(v: int)
    requires
        0 <= v <= u32::MAX,
    ensures
        bytes32(v).len() == 4,
        be_u32(bytes32(v), 0) == v,
{
}

/// Reading back what was written: the 64-bit encoding loses nothing.
pub proof fn be_u64_reads_bytes64(v: int)
    requires
        0 <= v <= u64::MAX,
    ensures
        bytes64(v).len() == 8,
        be_u64(bytes64(v), 0) == v,
{
    let hi = v / 0x1_0000_0000;
    let lo = v % 0x1_0000_0000;
    be_u32_reads_bytes32(hi);
    be_u32_reads_bytes32(lo);
    let b = bytes64(v);
    assert(be_u32(b, 0) == be_u32(bytes32(hi), 0));
    assert(be_u32(b, 4) == be_u32(bytes32(lo), 0));
}

/// Reading back what was written: a signed 16-bit sample survives its encoding.
pub proof fn be_i16_reads_bytes16(v: int)
    requires
        i16::MIN <= v <= i16::MAX,
    ensures
        bytes16(unsigned16(v)).len() == 2,
        signed16(be_u16(bytes16(unsigned16(v)), 0)) == v,
{
}

/// Where an integer is read from depends on its own bytes alone.
pub proof fn lemma_be_u32_of_subrange(b: Seq<u8>, at: int)
    requires
        0 <= at,
        at + 4 <= b.len(),
    ensures
        be_u32(b, at) == be_u32(b.subrange(at, at + 4), 0),
{
}

/// Where an integer is read from depends on its own bytes alone.
pub proof fn lemma_be_u64_of_subrange(b: Seq<u8>, at: int)
    requires
        0 <= at,
        at + 8 <= b.len(),
    ensures
        be_u64(b, at) == be_u64(b.subrange(at, at + 8), 0),
{
}

/// Read the 16-bit integer at `at`.
pub fn read_u16(buf: &[u8], at: usize) -> (r: u16)
    requires
        at + 2 <= buf.len(),
    ensures
        r == be_u16(buf@, at as int),
{
    buf[at] as u16 * 256 + buf[at + 1] as u16
}

/// Read the 32-bit integer at `at`.
pub fn read_u32(buf: &[u8], at: usize) -> (r: u32)
    requires
        at + 4 <= buf.len(),
    ensures
        r == be_u32(buf@, at as int),
{
    read_u16(buf, at) as u32 * 65536 + read_u16(buf, at + 2) as u32
}

/// Read the 64-bit integer at `at`.
pub fn read_u64(buf: &[u8], at: usize) -> (r: u64)
    requires
        at + 8 <= buf.len(),
    ensures
        r == be_u64(buf@, at as int),
{
    read_u32(buf, at) as u64 * 0x1_0000_0000 + read_u32(buf, at + 4) as u64
}

/// Read the signed 16-bit integer at `at`.
pub fn read_i16(buf: &[u8], at: usize) -> (r: i16)
    requires
        at + 2 <= buf.len(),
    ensures
        r == signed16(be_u16(buf@, at as int)),
{
    let v: u16 = read_u16(buf, at);
    if v >= 32768 {
        (v as i32 - 65536) as i16
    } else {
        v as i16
    }
}

/// Append a 16-bit integer.
pub fn push_u16(out: &mut Vec<u8>, v: u16)
    ensures
        final(out)@ == old(out)@ + bytes16(v as int),
{
    out.push((v / 256) as u8);
    out.push((v % 256) as u8);
    assert(out@ =~= old(out)@ + bytes16(v as int));
}

/// Append a 32-bit integer.
pub fn push_u32(out: &mut Vec<u8>, v: u32)
    ensures
        final(out)@ == old(out)@ + bytes32(v as int),
{
    push_u16(out, (v / 65536) as u16);
    push_u16(out, (v % 65536) as u16);
    assert(out@ =~= old(out)@ + bytes32(v as int));
}

/// Append a 64-bit integer.
pub fn push_u64(out: &mut Vec<u8>, v: u64)
    ensures
        final(out)@ == old(out)@ + bytes64(v as int),
{
    push_u32(out, (v / 0x1_0000_0000) as u32);
    push_u32(out, (v % 0x1_0000_0000) as u32);
    assert(out@ =~= old(out)@ + bytes64(v as int));
}

/// Append a signed 16-bit integer.
pub fn push_i16(out: &mut Vec<u8>, v: i16)
    ensures
        final(out)@ == old(out)@ + bytes16(unsigned16(v as int)),
{
    let u: u16 = if v < 0 {
        (v as i32 + 65536) as u16
    } else {
        v as u16
    };
    push_u16(out, u);
}

} // verus!

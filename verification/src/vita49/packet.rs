//! One IF Data Packet: its bytes, its fields, and the way between them.

use vstd::prelude::*;
use crate::bytes::{push_i16, push_u32, push_u64, read_i16, read_u32, read_u64};
#[allow(unused_imports)]
use crate::bytes::{be_i16_reads_bytes16, be_u16, be_u32, be_u32_reads_bytes32, be_u64, be_u64_reads_bytes64, lemma_be_u32_of_subrange, lemma_be_u64_of_subrange};
#[allow(unused_imports)]
use crate::bytes::{bytes16, bytes32, bytes64, signed16, unsigned16};
use crate::ieee::Real64;
#[allow(unused_imports)]
use crate::ieee::near_numbers_round_to_it;
use crate::text::{push_decimal, push_hex};
#[allow(unused_imports)]
use crate::text::{decimal, numeral};

verus! {

/// Packet type of an IF Data Packet.
pub const VITA49_IF_DATA_PACKET: u32 = 1;

/// Integer timestamp format: free-running.
pub const VITA49_TSI_OTHER: u32 = 3;

/// Fractional timestamp format: sample counts.
pub const VITA49_TSF_SAMPLE_COUNT: u32 = 1;

/// Number of 32-bit words in the header and timestamp fields: packet header,
/// stream identifier, integer seconds and the 64-bit fractional timestamp.
pub const HEADER_WORDS: usize = 5;

/// Bytes occupied by [`HEADER_WORDS`].
pub const HEADER_BYTES: usize = 20;

/// Largest number of complex samples whose packet the 16-bit size field can
/// describe.
pub const MAX_FRAMED_SAMPLES: usize = 65531;

/// Floating-point arithmetic behind packet timestamps.
pub trait TimestampMath {
    /// `timestamp_secs` rounded down to a whole number of seconds.
    fn whole_seconds(&self, timestamp_secs: Real64) -> Real64;

    /// `(timestamp_secs - whole) * sample_rate`.
    fn fraction_in_samples(&self, timestamp_secs: Real64, whole: Real64, sample_rate: Real64) -> Real64;

    /// `seconds * sample_rate`.
    fn seconds_in_samples(&self, seconds: u32, sample_rate: Real64) -> Real64;
}

/// `whole` is what `m` gives for the whole seconds of `ts`.
pub open spec fn whole_seconds_gives<M: TimestampMath>(m: M, ts: Real64, whole: Real64) -> bool {
    call_ensures(M::whole_seconds, (&m, ts), whole)
}

/// `frac` is what `m` gives for the samples since `whole`.
pub open spec fn fraction_gives<M: TimestampMath>(
    m: M,
    ts: Real64,
    whole: Real64,
    rate: Real64,
    frac: Real64,
) -> bool {
    call_ensures(M::fraction_in_samples, (&m, ts, whole, rate), frac)
}

/// `scaled` is what `m` gives for `seconds` expressed in samples.
pub open spec fn seconds_gives<M: TimestampMath>(m: M, seconds: u32, rate: Real64, scaled: Real64) -> bool {
    call_ensures(M::seconds_in_samples, (&m, seconds, rate), scaled)
}

/// Word 0 of a packet that carries `n` complex samples.
pub open spec fn header_word(n: nat) -> int {
    VITA49_IF_DATA_PACKET * 0x1000_0000 + VITA49_TSI_OTHER * 0x40_0000 + VITA49_TSF_SAMPLE_COUNT
        * 0x10_0000 + (HEADER_WORDS + n - 1) % 65536
}

/// The payload bytes of sc16 components, most significant byte first.
pub open spec fn payload_bytes(components: Seq<i16>) -> Seq<u8>
    decreases components.len(),
{
    if components.len() == 0 {
        seq![]
    } else {
        payload_bytes(components.drop_last()) + bytes16(unsigned16(components.last() as int))
    }
}

/// The components that make whole I/Q pairs: a trailing odd one is left out.
pub open spec fn whole_pairs(samples: Seq<i16>) -> Seq<i16> {
    samples.take((samples.len() / 2 * 2) as int)
}

/// The complete packet for `samples` with the given timestamp fields.
pub open spec fn frame_bytes(samples: Seq<i16>, ts_int: u32, ts_frac: u64) -> Seq<u8> {
    bytes32(header_word(samples.len() / 2)) + bytes32(0) + bytes32(ts_int as int) + bytes64(
        ts_frac as int,
    ) + payload_bytes(whole_pairs(samples))
}

/// Timestamp fields from the whole seconds and the fraction in samples, which is
/// rounded to the nearest sample: a truncated one would read as a lost sample.
///
/// A fraction that rounded up to a whole second is carried into the seconds.
pub open spec fn stamp(whole: Real64, frac: Real64, rate: Real64) -> (u32, u64) {
    let secs = whole.cast_unsigned(u32::MAX as nat) as u32;
    let count = frac.round_unsigned(u64::MAX as nat) as u64;
    let per_second = rate.cast_unsigned(u64::MAX as nat) as u64;
    if per_second >= 1 && count >= per_second {
        (
            if secs == u32::MAX {
                0u32
            } else {
                (secs + 1) as u32
            },
            (count - per_second) as u64,
        )
    } else {
        (secs, count)
    }
}

/// Timestamp fields `(ts_int, ts_frac)` from the whole seconds of a timestamp and
/// its fraction in samples.
pub fn timestamp_fields(whole: Real64, frac: Real64, sample_rate: Real64) -> (r: (u32, u64))
    ensures
        r == stamp(whole, frac, sample_rate),
{
    let ts_int: u32 = whole.as_u32();
    let ts_frac: u64 = frac.round_u64();
    let per_second: u64 = sample_rate.as_u64();
    if per_second >= 1 && ts_frac >= per_second {
        (ts_int.wrapping_add(1), ts_frac - per_second)
    } else {
        (ts_int, ts_frac)
    }
}

/// Frame interleaved `[I0, Q0, I1, Q1, ...]` components with given timestamp
/// fields.
pub fn frame(samples: &[i16], ts_int: u32, ts_frac: u64) -> (buf: Vec<u8>)
    ensures
        buf@ == frame_bytes(samples@, ts_int, ts_frac),
{
    let num_samples: usize = samples.len() / 2;
    // Total 32-bit words minus one, as the 16-bit field holds it.
    let size: u32 = ((num_samples % 65536 + (HEADER_WORDS - 1)) % 65536) as u32;
    let header: u32 = VITA49_IF_DATA_PACKET * 0x1000_0000 + VITA49_TSI_OTHER * 0x40_0000
        + VITA49_TSF_SAMPLE_COUNT * 0x10_0000 + size;
    let mut buf: Vec<u8> = Vec::new();
    push_u32(&mut buf, header);
    proof {
        assert(header == header_word((samples@.len() / 2) as nat));
        assert(buf@ =~= bytes32(header as int));
    }
    push_u32(&mut buf, 0);
    push_u32(&mut buf, ts_int);
    push_u64(&mut buf, ts_frac);
    let ghost head = buf@;
    assert(head + payload_bytes(samples@.take(0)) =~= head);
    let count: usize = num_samples * 2;
    let mut i: usize = 0;
    while i < count
        invariant
            i <= count <= samples.len(),
            buf@ == head + payload_bytes(samples@.take(i as int)),
        decreases count - i,
    {
        push_i16(&mut buf, samples[i]);
        i = i + 1;
        proof {
            let now = samples@.take(i as int);
            assert(now.drop_last() =~= samples@.take(i - 1));
            let grown = bytes16(unsigned16(now.last() as int));
            assert((head + payload_bytes(now.drop_last())) + grown =~= head + (payload_bytes(
                now.drop_last(),
            ) + grown));
        }
    }
    proof {
        assert(samples@.take(count as int) == whole_pairs(samples@));
    }
    buf
}

/// `buf` is the packet for `samples` at the given time: whole seconds and the
/// rounded sample fraction, carried where the fraction makes a whole second.
pub open spec fn is_built<M: TimestampMath>(
    m: M,
    samples: Seq<i16>,
    timestamp_secs: Real64,
    sample_rate: Real64,
    buf: Seq<u8>,
) -> bool {
    exists|whole: Real64, frac: Real64|
        #![trigger fraction_gives(m, timestamp_secs, whole, sample_rate, frac)]
        whole_seconds_gives(m, timestamp_secs, whole) && fraction_gives(
            m,
            timestamp_secs,
            whole,
            sample_rate,
            frac,
        ) && buf == frame_bytes(
            samples,
            stamp(whole, frac, sample_rate).0,
            stamp(whole, frac, sample_rate).1,
        )
}

/// Build one complete packet from interleaved sc16 samples.
///
/// `timestamp_secs` is the time of the first sample in seconds; its fraction is
/// written in sample counts at `sample_rate`, rounded to the nearest sample. A
/// trailing odd component is ignored so that the payload is whole words.
pub fn build_packet<M: TimestampMath>(
    samples: &[i16],
    timestamp_secs: Real64,
    sample_rate: Real64,
    m: &M,
) -> (buf: Vec<u8>)
    ensures
        is_built(*m, samples@, timestamp_secs, sample_rate, buf@),
{
    let whole = m.whole_seconds(timestamp_secs);
    let frac = m.fraction_in_samples(timestamp_secs, whole, sample_rate);
    assert(whole_seconds_gives(*m, timestamp_secs, whole));
    assert(fraction_gives(*m, timestamp_secs, whole, sample_rate, frac));
    let fields = timestamp_fields(whole, frac, sample_rate);
    frame(samples, fields.0, fields.1)
}

/// A parsed IF Data Packet, borrowing its payload from the buffer.
#[derive(Debug, Clone, Copy, PartialEq, Eq)]
pub struct Packet<'a> {
    /// Packet type field.
    pub packet_type: u32,
    /// Stream identifier word.
    pub stream_id: u32,
    /// Timestamp integer seconds.
    pub ts_int: u32,
    /// Timestamp fractional field: sample counts when `tsf` says so.
    pub ts_frac: u64,
    /// Timestamp fractional mode.
    pub tsf: u32,
    /// Whole 32-bit words of payload, two sc16 components per word.
    pub payload: &'a [u8],
}

/// The components held in payload bytes; a trailing odd byte is left out.
pub open spec fn components(payload: Seq<u8>) -> Seq<i16> {
    Seq::new((payload.len() / 2) as nat, |k: int| signed16(be_u16(payload, 2 * k)) as i16)
}

/// The sample counter of a packet whose seconds scale to `scaled` samples.
pub open spec fn counter_value(scaled: Real64, ts_frac: u64) -> int {
    scaled.cast_unsigned(u64::MAX as nat) + ts_frac
}

impl<'a> Packet<'a> {
    /// Number of complex samples carried.
    pub fn samples(&self) -> (n: usize)
        ensures
            n == self.payload@.len() / 4,
    {
        self.payload.len() / 4
    }

    /// Position of the first sample in the stream, or `None` where it does not
    /// fit in 64 bits.
    pub fn sample_counter_from(&self, scaled: Real64) -> (r: Option<u64>)
        ensures
            match r {
                Some(c) => c == counter_value(scaled, self.ts_frac),
                None => counter_value(scaled, self.ts_frac) > u64::MAX,
            },
    {
        scaled.as_u64().checked_add(self.ts_frac)
    }

    /// Sample-counter timestamp: the seconds scaled by the sample rate plus the
    /// fractional sample count. This is the stream's continuity signal.
    ///
    /// `None` where the sum does not fit in 64 bits.
    pub fn sample_counter<M: TimestampMath>(&self, sample_rate: Real64, m: &M) -> (r: Option<u64>)
        ensures
            exists|scaled: Real64|
                #[trigger] seconds_gives(*m, self.ts_int, sample_rate, scaled) && match r {
                    Some(c) => c == counter_value(scaled, self.ts_frac),
                    None => counter_value(scaled, self.ts_frac) > u64::MAX,
                },
    {
        let scaled = m.seconds_in_samples(self.ts_int, sample_rate);
        assert(seconds_gives(*m, self.ts_int, sample_rate, scaled));
        self.sample_counter_from(scaled)
    }

    /// Payload as interleaved sc16 I/Q.
    pub fn iq_i16(&self) -> (out: Vec<i16>)
        ensures
            out@ == components(self.payload@),
    {
        let n: usize = self.payload.len() / 2;
        let mut out: Vec<i16> = Vec::new();
        let mut k: usize = 0;
        while k < n
            invariant
                k <= n,
                n == self.payload@.len() / 2,
                n == self.payload.len() / 2,
                out@ == components(self.payload@).take(k as int),
            decreases n - k,
        {
            out.push(read_i16(self.payload, 2 * k));
            k = k + 1;
            assert(out@ =~= components(self.payload@).take(k as int));
        }
        assert(components(self.payload@).take(n as int) =~= components(self.payload@));
        out
    }
}

/// Why a buffer is not a usable IF Data Packet.
#[derive(Debug, Clone, Copy, PartialEq, Eq, Structural)]
pub enum ParseError {
    /// Shorter than the header.
    TooShort { got: usize },
    /// The header's size field disagrees with the bytes actually present.
    LengthMismatch { declared: usize, actual: usize },
    /// Only IF Data Packets are understood.
    UnsupportedPacketType(u32),
    /// A trailer or header extension is present, which is not skipped.
    Trailerized,
}

/// What an error says of itself.
pub open spec fn parse_error_text(e: ParseError) -> Seq<char> {
    match e {
        ParseError::TooShort { got } => "packet shorter than the 20-byte header ("@ + decimal(
            got as nat,
        ) + ")"@,
        ParseError::LengthMismatch { declared, actual } => "header declares "@ + decimal(
            declared as nat,
        ) + " bytes but "@ + decimal(actual as nat) + " are present"@,
        ParseError::UnsupportedPacketType(t) => "unsupported packet type 0x"@ + numeral(t as nat, 16),
        ParseError::Trailerized => "trailerized packets are not supported"@,
    }
}

impl ParseError {
    /// The error in words.
    pub fn message(&self) -> (s: String)
        ensures
            s@ == parse_error_text(*self),
    {
        let mut s = String::new();
        match self {
            ParseError::TooShort { got } => {
                s.append("packet shorter than the 20-byte header (");
                push_decimal(&mut s, *got as u64);
                s.append(")");
            },
            ParseError::LengthMismatch { declared, actual } => {
                s.append("header declares ");
                push_decimal(&mut s, *declared as u64);
                s.append(" bytes but ");
                push_decimal(&mut s, *actual as u64);
                s.append(" are present");
            },
            ParseError::UnsupportedPacketType(t) => {
                s.append("unsupported packet type 0x");
                push_hex(&mut s, *t as u64);
            },
            ParseError::Trailerized => {
                s.append("trailerized packets are not supported");
            },
        }
        assert(s@ =~= parse_error_text(*self));
        s
    }
}

/// Bytes that word 0 of a packet declares.
pub open spec fn declared_bytes(header: int) -> int {
    (header % 65536 + 1) * 4
}

/// What is wrong with a buffer that is not exactly one packet, if anything.
pub open spec fn packet_fault(b: Seq<u8>) -> Option<ParseError> {
    let header = be_u32(b, 0);
    if b.len() < HEADER_BYTES {
        Some(ParseError::TooShort { got: b.len() as usize })
    } else if header / 0x1000_0000 != VITA49_IF_DATA_PACKET {
        Some(ParseError::UnsupportedPacketType((header / 0x1000_0000) as u32))
    } else if (header / 0x100_0000) % 4 != 0 {
        Some(ParseError::Trailerized)
    } else if declared_bytes(header) != b.len() {
        Some(
            ParseError::LengthMismatch {
                declared: declared_bytes(header) as usize,
                actual: b.len() as usize,
            },
        )
    } else {
        None
    }
}

/// `p` holds the fields of the packet `b`.
pub open spec fn has_fields_of(p: Packet, b: Seq<u8>) -> bool {
    &&& p.packet_type == be_u32(b, 0) / 0x1000_0000
    &&& p.stream_id == be_u32(b, 4)
    &&& p.ts_int == be_u32(b, 8)
    &&& p.ts_frac == be_u64(b, 12)
    &&& p.tsf == (be_u32(b, 0) / 0x10_0000) % 4
    &&& p.payload@ == b.skip(HEADER_BYTES as int)
}

/// The result of reading `b` as one packet is `r`.
pub open spec fn reads_as(b: Seq<u8>, r: Result<Packet, ParseError>) -> bool {
    match packet_fault(b) {
        Some(e) => r == Err::<Packet, ParseError>(e),
        None => r matches Ok(p) && has_fields_of(p, b),
    }
}

/// Parse exactly one packet from `buf`.
///
/// Strict by design: the buffer must be exactly one packet. A short read is an
/// error rather than a truncated packet.
pub fn parse<'a>(buf: &'a [u8]) -> (r: Result<Packet<'a>, ParseError>)
    ensures
        reads_as(buf@, r),
{
    if buf.len() < HEADER_BYTES {
        return Err(ParseError::TooShort { got: buf.len() });
    }
    let header: u32 = read_u32(buf, 0);
    let packet_type: u32 = header / 0x1000_0000;
    if packet_type != VITA49_IF_DATA_PACKET {
        return Err(ParseError::UnsupportedPacketType(packet_type));
    }
    if (header / 0x100_0000) % 4 != 0 {
        return Err(ParseError::Trailerized);
    }
    let declared: usize = ((header % 65536) as usize + 1) * 4;
    if declared != buf.len() {
        return Err(ParseError::LengthMismatch { declared, actual: buf.len() });
    }
    let payload = vstd::slice::slice_subrange(buf, HEADER_BYTES, buf.len());
    assert(payload@ =~= buf@.skip(HEADER_BYTES as int));
    Ok(
        Packet {
            packet_type,
            stream_id: read_u32(buf, 4),
            ts_int: read_u32(buf, 8),
            ts_frac: read_u64(buf, 12),
            tsf: (header / 0x10_0000) % 4,
            payload,
        },
    )
}

/// The payload encoding holds two bytes per component, in order.
pub proof fn lemma_payload_bytes(c: Seq<i16>)
    ensures
        payload_bytes(c).len() == 2 * c.len(),
        forall|k: int|
            0 <= k < c.len() ==> #[trigger] be_u16(payload_bytes(c), 2 * k) == unsigned16(c[k] as int),
    decreases c.len(),
{
    if c.len() > 0 {
        let head = c.drop_last();
        lemma_payload_bytes(head);
        be_i16_reads_bytes16(c.last() as int);
        let all = payload_bytes(c);
        let last = bytes16(unsigned16(c.last() as int));
        assert forall|k: int| 0 <= k < c.len() implies #[trigger] be_u16(all, 2 * k) == unsigned16(
            c[k] as int,
        ) by {
            if k < head.len() {
                assert(be_u16(all, 2 * k) == be_u16(payload_bytes(head), 2 * k));
            } else {
                assert(all[2 * k] == last[0]);
                assert(all[2 * k + 1] == last[1]);
            }
        }
    }
}

/// Payloads round-trip: decoding encoded components gives them back.
pub proof fn payload_round_trips(c: Seq<i16>)
    ensures
        components(payload_bytes(c)) == c,
{
    lemma_payload_bytes(c);
    let back = components(payload_bytes(c));
    assert forall|k: int| 0 <= k < c.len() implies back[k] == c[k] by {
        assert(be_u16(payload_bytes(c), 2 * k) == unsigned16(c[k] as int));
    }
    assert(back =~= c);
}

/// A built packet is word aligned, and as long as its header and its whole
/// pairs make it.
pub proof fn frames_are_word_aligned(samples: Seq<i16>, ts_int: u32, ts_frac: u64)
    ensures
        frame_bytes(samples, ts_int, ts_frac).len() == HEADER_BYTES + 4 * (samples.len() / 2),
        frame_bytes(samples, ts_int, ts_frac).len() % 4 == 0,
{
    lemma_payload_bytes(whole_pairs(samples));
}

/// Parsing what was built gives the timestamp and the samples back, for every
/// packet whose length the size field can hold.
pub proof fn parse_inverts_build(samples: Seq<i16>, ts_int: u32, ts_frac: u64)
    requires
        samples.len() / 2 <= MAX_FRAMED_SAMPLES,
    ensures
        packet_fault(frame_bytes(samples, ts_int, ts_frac)) is None,
        forall|p: Packet| #[trigger]
            has_fields_of(p, frame_bytes(samples, ts_int, ts_frac)) ==> {
                &&& p.packet_type == VITA49_IF_DATA_PACKET
                &&& p.stream_id == 0
                &&& p.ts_int == ts_int
                &&& p.ts_frac == ts_frac
                &&& p.tsf == VITA49_TSF_SAMPLE_COUNT
                &&& p.payload@.len() / 4 == samples.len() / 2
                &&& components(p.payload@) == whole_pairs(samples)
            },
{
    lemma_frame_fields(samples, ts_int, ts_frac);
    payload_round_trips(whole_pairs(samples));
    lemma_payload_bytes(whole_pairs(samples));
    let n = samples.len() / 2;
    let h = header_word(n);
    assert(h == 0x10D0_0004 + n);
}

/// Where each field of a built packet stands.
pub proof fn lemma_frame_fields(samples: Seq<i16>, ts_int: u32, ts_frac: u64)
    ensures
        ({
            let b = frame_bytes(samples, ts_int, ts_frac);
            &&& b.len() == HEADER_BYTES + 4 * (samples.len() / 2)
            &&& be_u32(b, 0) == header_word(samples.len() / 2)
            &&& be_u32(b, 4) == 0
            &&& be_u32(b, 8) == ts_int
            &&& be_u64(b, 12) == ts_frac
            &&& b.skip(HEADER_BYTES as int) == payload_bytes(whole_pairs(samples))
        }),
{
    let b = frame_bytes(samples, ts_int, ts_frac);
    let h = header_word(samples.len() / 2);
    let body = payload_bytes(whole_pairs(samples));
    lemma_payload_bytes(whole_pairs(samples));
    be_u32_reads_bytes32(h);
    be_u32_reads_bytes32(0);
    be_u32_reads_bytes32(ts_int as int);
    be_u64_reads_bytes64(ts_frac as int);
    let w0 = bytes32(h);
    let w1 = bytes32(0);
    let w2 = bytes32(ts_int as int);
    let w3 = bytes64(ts_frac as int);
    assert(b.len() == 20 + body.len());
    assert(b.subrange(0, 4) =~= w0);
    assert(b.subrange(4, 8) =~= w1);
    assert(b.subrange(8, 12) =~= w2);
    assert(b.subrange(12, 20) =~= w3);
    assert(b.skip(HEADER_BYTES as int) =~= body);
    lemma_be_u32_of_subrange(b, 0);
    lemma_be_u32_of_subrange(b, 4);
    lemma_be_u32_of_subrange(b, 8);
    lemma_be_u64_of_subrange(b, 12);
}

/// Carrying a rounded-up fraction into the seconds leaves the sample counter
/// where it was, and the fraction below one second.
pub proof fn carry_keeps_the_counter(whole: Real64, frac: Real64, rate: Real64)
    requires
        rate.cast_unsigned(u64::MAX as nat) >= 1,
        frac.round_unsigned(u64::MAX as nat) < 2 * rate.cast_unsigned(u64::MAX as nat),
        whole.cast_unsigned(u32::MAX as nat) < u32::MAX,
    ensures
        ({
            let per_second = rate.cast_unsigned(u64::MAX as nat) as int;
            let s = stamp(whole, frac, rate);
            &&& s.1 < per_second
            &&& s.0 * per_second + s.1 == whole.cast_unsigned(u32::MAX as nat) * per_second
                + frac.round_unsigned(u64::MAX as nat)
        }),
{
    let per_second = rate.cast_unsigned(u64::MAX as nat) as int;
    let secs = whole.cast_unsigned(u32::MAX as nat) as int;
    assert((secs + 1) * per_second == secs * per_second + per_second) by (nonlinear_arith);
}

/// Whatever `m` gives for the parts of `ts`, the fraction lies less than half a
/// sample from sample `at` of the stream.
pub open spec fn lands_on<M: TimestampMath>(m: M, ts: Real64, rate: Real64, at: int) -> bool {
    let per_second = rate.cast_unsigned(u64::MAX as nat) as int;
    &&& per_second >= 1
    &&& forall|whole: Real64, frac: Real64|
        whole_seconds_gives(m, ts, whole) && #[trigger] fraction_gives(m, ts, whole, rate, frac) ==> {
            let secs = whole.cast_unsigned(u32::MAX as nat) as int;
            let count = at - secs * per_second;
            secs < u32::MAX && 0 <= count <= per_second && frac.near(count as nat)
        }
}

/// A rounding error does not read as a lost sample: where the arithmetic is off by
/// less than half a sample, the timestamp that a built packet carries is exact.
pub proof fn timestamps_are_exact_to_the_sample<M: TimestampMath>(
    m: M,
    samples: Seq<i16>,
    ts: Real64,
    rate: Real64,
    at: int,
    buf: Seq<u8>,
    p: Packet,
)
    requires
        is_built(m, samples, ts, rate, buf),
        lands_on(m, ts, rate, at),
        has_fields_of(p, buf),
    ensures
        p.ts_int * rate.cast_unsigned(u64::MAX as nat) + p.ts_frac == at,
        p.ts_frac < rate.cast_unsigned(u64::MAX as nat),
{
    let per_second = rate.cast_unsigned(u64::MAX as nat) as int;
    let (whole, frac) = choose|whole: Real64, frac: Real64|
        #![trigger fraction_gives(m, ts, whole, rate, frac)]
        whole_seconds_gives(m, ts, whole) && fraction_gives(m, ts, whole, rate, frac) && buf
            == frame_bytes(samples, stamp(whole, frac, rate).0, stamp(whole, frac, rate).1);
    let secs = whole.cast_unsigned(u32::MAX as nat) as int;
    let count = at - secs * per_second;
    near_numbers_round_to_it(frac, count as nat, u64::MAX as nat);
    carry_keeps_the_counter(whole, frac, rate);
    let fields = stamp(whole, frac, rate);
    lemma_frame_fields(samples, fields.0, fields.1);
}

/// The sample counter of consecutive packets steps by exactly the samples between
/// them, where the arithmetic is off by less than half a sample and gives whole
/// seconds in samples as they are.
pub proof fn consecutive_counters_step_exactly<M: TimestampMath>(
    m: M,
    rate: Real64,
    step: int,
    first: Seq<i16>,
    first_ts: Real64,
    first_at: int,
    first_buf: Seq<u8>,
    first_p: Packet,
    first_scaled: Real64,
    next: Seq<i16>,
    next_ts: Real64,
    next_buf: Seq<u8>,
    next_p: Packet,
    next_scaled: Real64,
)
    requires
        is_built(m, first, first_ts, rate, first_buf),
        lands_on(m, first_ts, rate, first_at),
        has_fields_of(first_p, first_buf),
        first_scaled.cast_unsigned(u64::MAX as nat) == first_p.ts_int * rate.cast_unsigned(
            u64::MAX as nat,
        ),
        is_built(m, next, next_ts, rate, next_buf),
        lands_on(m, next_ts, rate, first_at + step),
        has_fields_of(next_p, next_buf),
        next_scaled.cast_unsigned(u64::MAX as nat) == next_p.ts_int * rate.cast_unsigned(
            u64::MAX as nat,
        ),
    ensures
        counter_value(first_scaled, first_p.ts_frac) == first_at,
        counter_value(next_scaled, next_p.ts_frac) == counter_value(first_scaled, first_p.ts_frac)
            + step,
{
    timestamps_are_exact_to_the_sample(m, first, first_ts, rate, first_at, first_buf, first_p);
    timestamps_are_exact_to_the_sample(m, next, next_ts, rate, first_at + step, next_buf, next_p);
}

} // verus!

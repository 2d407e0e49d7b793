//! Deterministic test signals and their packet streams.
//!
//! The modulation is plain AM with its carrier: the envelope of the signal
//! carries a single known tone.

use vstd::prelude::*;
use vstd::slice::slice_subrange;
use crate::dsp::fir::ONE_BITS;
use crate::dsp::iq::{iq_to_sc16, Iq};
#[allow(unused_imports)]
use crate::dsp::iq::interleaved_sc16;
use crate::ieee::{Real32, Real64};
use crate::vita49::packet::{build_packet, TimestampMath};
#[allow(unused_imports)]
use crate::vita49::cursor::{built_packets_are_well_framed, concatenation, walk};
#[allow(unused_imports)]
use crate::vita49::cursor::{walk_recovers_the_packets, well_framed};
#[allow(unused_imports)]
use crate::vita49::packet::{components, fraction_gives, frame_bytes, is_built, lemma_frame_fields, ParseError};
#[allow(unused_imports)]
use crate::vita49::packet::{payload_round_trips, stamp, whole_pairs, whole_seconds_gives};
#[allow(unused_imports)]
use crate::vita49::packet::{counter_value, has_fields_of, lands_on, timestamps_are_exact_to_the_sample, Packet};
#[allow(unused_imports)]
use crate::vita49::packet::{HEADER_BYTES, MAX_FRAMED_SAMPLES};

verus! {

/// Floating-point arithmetic of the generator.
pub trait VectorMath {
    /// `seconds * sample_rate`.
    fn sample_count(&self, seconds: Real64, sample_rate: Real64) -> Real64;

    /// `amplitude * (1 + depth)`.
    fn peak(&self, amplitude: Real64, depth: Real64) -> Real64;

    /// `k / sample_rate`.
    fn sample_time(&self, k: usize, sample_rate: Real64) -> Real64;

    /// `TAU * frequency_hz * t`.
    fn angle(&self, frequency_hz: Real64, t: Real64) -> Real64;

    /// `amplitude * (1 + depth * cos(tone_angle))`.
    fn modulated(&self, amplitude: Real64, depth: Real64, tone_angle: Real64) -> Real64;

    /// `envelope * cos(carrier_angle)`, rounded to single precision.
    fn in_phase(&self, envelope: Real64, carrier_angle: Real64) -> Real32;

    /// `envelope * sin(carrier_angle)`, rounded to single precision.
    fn quadrature(&self, envelope: Real64, carrier_angle: Real64) -> Real32;

    /// `start_secs + first_sample / sample_rate`.
    fn packet_time(&self, start_secs: Real64, first_sample: usize, sample_rate: Real64) -> Real64;
}

/// Specification of an amplitude-modulated test signal.
#[derive(Debug, Clone, Copy, PartialEq, Eq, Structural)]
pub struct AmTone {
    /// Modulating tone in Hz.
    pub tone_hz: Real64,
    /// Carrier offset from the wideband centre in Hz.
    pub offset_hz: Real64,
    /// Sample rate in Hz.
    pub sample_rate: Real64,
    /// Duration in seconds.
    pub seconds: Real64,
    /// Modulation depth; confined to zero and one, since a deeper modulation
    /// inverts the envelope.
    pub depth: Real64,
    /// Amplitude of the unmodulated carrier.
    pub amplitude: Real64,
}

/// `a` is what `m` gives for the angle that a frequency has turned through.
pub open spec fn angle_gives<M: VectorMath>(m: M, frequency_hz: Real64, t: Real64, a: Real64) -> bool {
    call_ensures(M::angle, (&m, frequency_hz, t), a)
}

/// `env` is the envelope of the signal at time `t`: the carrier's amplitude,
/// modulated by the tone.
pub open spec fn is_envelope_at<M: VectorMath>(
    m: M,
    spec: AmTone,
    depth: Real64,
    t: Real64,
    env: Real64,
) -> bool {
    exists|a: Real64| #[trigger]
        angle_gives(m, spec.tone_hz, t, a) && call_ensures(
            M::modulated,
            (&m, spec.amplitude, depth, a),
            env,
        )
}

/// `s` is sample `k` of the signal: the envelope, turned by the carrier. The
/// envelope scales both components, so that the signal has no image.
pub open spec fn is_am_sample<M: VectorMath>(m: M, spec: AmTone, depth: Real64, k: usize, s: Iq) -> bool {
    exists|t: Real64, env: Real64, a: Real64|
        #![trigger is_envelope_at(m, spec, depth, t, env), angle_gives(m, spec.offset_hz, t, a)]
        {
            &&& call_ensures(M::sample_time, (&m, k, spec.sample_rate), t)
            &&& is_envelope_at(m, spec, depth, t, env)
            &&& angle_gives(m, spec.offset_hz, t, a)
            &&& call_ensures(M::in_phase, (&m, env, a), s.i)
            &&& call_ensures(M::quadrature, (&m, env, a), s.q)
        }
}

/// `n` is the number of samples in the signal, to the nearest whole one.
pub open spec fn is_sample_count<M: VectorMath>(m: M, spec: AmTone, n: usize) -> bool {
    exists|raw: Real64| #[trigger]
        call_ensures(M::sample_count, (&m, spec.seconds, spec.sample_rate), raw) && n
            == raw.round_unsigned(usize::MAX as nat)
}

impl AmTone {
    /// The modulation depth that is used.
    pub open spec fn used_depth(self) -> Real64 {
        self.depth.clamped(Real64 { bits: 0 }, Real64 { bits: ONE_BITS })
    }

    /// Number of whole complex samples in this signal.
    pub fn samples<M: VectorMath>(&self, m: &M) -> (n: usize)
        ensures
            is_sample_count(*m, *self, n),
    {
        let raw = m.sample_count(self.seconds, self.sample_rate);
        assert(call_ensures(M::sample_count, (m, self.seconds, self.sample_rate), raw));
        raw.round_usize()
    }

    /// Peak magnitude of the envelope. The 16-bit conversion clips above full
    /// scale.
    pub fn peak_amplitude<M: VectorMath>(&self, m: &M) -> (p: Real64)
        ensures
            call_ensures(M::peak, (m, self.amplitude, self.used_depth()), p),
    {
        m.peak(self.amplitude, self.depth.clamp(Real64 { bits: 0 }, Real64 { bits: ONE_BITS }))
    }

    /// Sample `k` of the signal, modulated with `depth`.
    fn sample<M: VectorMath>(&self, depth: Real64, k: usize, m: &M) -> (s: Iq)
        ensures
            is_am_sample(*m, *self, depth, k, s),
    {
        let t = m.sample_time(k, self.sample_rate);
        let tone = m.angle(self.tone_hz, t);
        let env = m.modulated(self.amplitude, depth, tone);
        let carrier = m.angle(self.offset_hz, t);
        assert(angle_gives(*m, self.tone_hz, t, tone));
        assert(is_envelope_at(*m, *self, depth, t, env));
        assert(angle_gives(*m, self.offset_hz, t, carrier));
        Iq { i: m.in_phase(env, carrier), q: m.quadrature(env, carrier) }
    }

    /// Generate the complex baseband signal.
    pub fn generate<M: VectorMath>(&self, m: &M) -> (iq: Vec<Iq>)
        ensures
            is_sample_count(*m, *self, iq@.len() as usize),
            iq@.len() <= usize::MAX,
            forall|k: int|
                0 <= k < iq@.len() ==> is_am_sample(
                    *m,
                    *self,
                    self.used_depth(),
                    k as usize,
                    #[trigger] iq@[k],
                ),
    {
        let depth = self.depth.clamp(Real64 { bits: 0 }, Real64 { bits: ONE_BITS });
        let n: usize = self.samples(m);
        let mut iq: Vec<Iq> = Vec::new();
        let mut k: usize = 0;
        while k < n
            invariant
                k <= n,
                iq@.len() == k,
                depth == self.used_depth(),
                forall|j: int|
                    0 <= j < k ==> is_am_sample(*m, *self, depth, j as usize, #[trigger] iq@[j]),
            decreases n - k,
        {
            iq.push(self.sample(depth, k, m));
            k = k + 1;
        }
        iq
    }
}

/// Packets needed for `n` samples at `per` samples each.
pub open spec fn packet_total(n: nat, per: nat) -> nat {
    (n + per - 1) as nat / per
}

/// The samples of packet `i`.
pub open spec fn chunk(iq: Seq<Iq>, per: nat, i: int) -> Seq<Iq> {
    let start = i * per;
    iq.subrange(
        start,
        if start + per <= iq.len() {
            start + per
        } else {
            iq.len() as int
        },
    )
}

/// `p` is packet `i` of the stream: its own samples, stamped with the time of the
/// first of them.
pub open spec fn is_stream_packet<M: VectorMath + TimestampMath>(
    m: M,
    iq: Seq<Iq>,
    rate: Real64,
    per: nat,
    start_secs: Real64,
    i: int,
    p: Seq<u8>,
) -> bool {
    exists|ts: Real64| #[trigger]
        call_ensures(M::packet_time, (&m, start_secs, (i * per) as usize, rate), ts) && is_built(
            m,
            interleaved_sc16(chunk(iq, per, i)),
            ts,
            rate,
            p,
        )
}

/// `ps` are the packets of the stream, in order.
pub open spec fn are_stream_packets<M: VectorMath + TimestampMath>(
    m: M,
    iq: Seq<Iq>,
    rate: Real64,
    per: nat,
    start_secs: Real64,
    ps: Seq<Seq<u8>>,
) -> bool {
    &&& ps.len() == packet_total(iq.len(), per)
    &&& forall|i: int|
        0 <= i < ps.len() ==> is_stream_packet(m, iq, rate, per, start_secs, i, #[trigger] ps[i])
}

proof fn lemma_concatenation_push(ps: Seq<Seq<u8>>, p: Seq<u8>)
    ensures
        concatenation(ps.push(p)) == concatenation(ps) + p,
    decreases ps.len(),
{
    if ps.len() == 0 {
        let rest = ps.push(p).skip(1);
        assert(rest.len() == 0);
        assert(concatenation(rest) == Seq::<u8>::empty());
        assert(concatenation(ps.push(p)) =~= p);
        assert(concatenation(ps) + p =~= p);
    } else {
        lemma_concatenation_push(ps.skip(1), p);
        assert(ps.push(p).skip(1) =~= ps.skip(1).push(p));
        assert(ps[0] + (concatenation(ps.skip(1)) + p) =~= (ps[0] + concatenation(ps.skip(1))) + p);
    }
}

proof fn lemma_chunk_components(iq: Seq<Iq>, per: nat, i: int)
    requires
        per > 0,
        0 <= i,
        i * per <= iq.len(),
    ensures
        ({
            let start = i * per;
            let end = if start + per <= iq.len() {
                start + per
            } else {
                iq.len() as int
            };
            interleaved_sc16(iq).subrange(2 * start, 2 * end) == interleaved_sc16(chunk(iq, per, i))
        }),
{
    let start = i * per;
    let end = if start + per <= iq.len() {
        start + per
    } else {
        iq.len() as int
    };
    let a = interleaved_sc16(iq).subrange(2 * start, 2 * end);
    let b = interleaved_sc16(chunk(iq, per, i));
    assert(0 <= start) by (nonlinear_arith)
        requires
            start == i * per,
            i >= 0,
    ;
    assert(a.len() == b.len());
    assert forall|k: int| 0 <= k < a.len() implies a[k] == b[k] by {
        assert((2 * start + k) / 2 == start + k / 2);
        assert((2 * start + k) % 2 == k % 2);
    }
    assert(a =~= b);
}

/// Serialize samples as a stream of concatenated packets. Timestamps advance by
/// exactly one packet's worth of samples, so that the stream's sample counter is
/// continuous.
///
/// Returns the bytes and the number of packets.
pub fn vita49_stream<M: VectorMath + TimestampMath>(
    iq: &[Iq],
    sample_rate: Real64,
    samples_per_packet: usize,
    start_secs: Real64,
    m: &M,
) -> (r: (Vec<u8>, usize))
    requires
        samples_per_packet > 0,
        2 * samples_per_packet <= usize::MAX,
    ensures
        exists|ps: Seq<Seq<u8>>| #[trigger]
            are_stream_packets(*m, iq@, sample_rate, samples_per_packet as nat, start_secs, ps)
                && r.0@ == concatenation(ps) && r.1 == ps.len(),
{
    let interleaved = iq_to_sc16(iq);
    let len: usize = interleaved.len();
    let n: usize = iq.len();
    let ghost per = samples_per_packet as nat;
    let mut out: Vec<u8> = Vec::new();
    let mut packets: usize = 0;
    let mut first: usize = 0;
    let ghost mut ps: Seq<Seq<u8>> = seq![];
    proof {
        assert(0 * per == 0) by (nonlinear_arith);
    }
    while first < n
        invariant
            samples_per_packet > 0,
            per == samples_per_packet,
            n == iq@.len(),
            len == 2 * n,
            len == interleaved@.len(),
            interleaved@ == interleaved_sc16(iq@),
            packets == ps.len(),
            packets <= first <= n,
            first == if packets * per <= n {
                packets * per
            } else {
                n as int
            },
            packets > 0 ==> (packets - 1) * per < n,
            out@ == concatenation(ps),
            forall|i: int|
                0 <= i < ps.len() ==> is_stream_packet(
                    *m,
                    iq@,
                    sample_rate,
                    per,
                    start_secs,
                    i,
                    #[trigger] ps[i],
                ),
        decreases n - first,
    {
        let end: usize = if n - first >= samples_per_packet {
            first + samples_per_packet
        } else {
            n
        };
        let ts = m.packet_time(start_secs, first, sample_rate);
        let part = slice_subrange(interleaved.as_slice(), 2 * first, 2 * end);
        let packet = build_packet(part, ts, sample_rate, m);
        out.extend_from_slice(packet.as_slice());
        proof {
            let i = packets as int;
            assert(first == i * per);
            assert(call_ensures(M::packet_time, (m, start_secs, (i * per) as usize, sample_rate), ts));
            lemma_chunk_components(iq@, per, i);
            assert(part@ == interleaved_sc16(chunk(iq@, per, i)));
            assert(is_stream_packet(*m, iq@, sample_rate, per, start_secs, i, packet@));
            lemma_concatenation_push(ps, packet@);
            ps = ps.push(packet@);
            assert((i + 1) * per == i * per + per) by (nonlinear_arith);
        }
        packets = packets + 1;
        first = end;
    }
    proof {
        let p = packets as int;
        let q = per as int;
        if n == 0 {
            assert((0 + q - 1) / q == 0) by (nonlinear_arith)
                requires
                    q > 0,
            ;
        } else {
            assert((n + q - 1) / q == p) by (nonlinear_arith)
                requires
                    q > 0,
                    (p - 1) * q < n,
                    n <= p * q,
            ;
        }
        assert(are_stream_packets(*m, iq@, sample_rate, per, start_secs, ps));
    }
    (out, packets)
}

/// A packet stream is walked back packet by packet, in order and to its end,
/// while each packet is short enough for the size field.
pub proof fn streams_are_walked_back<M: VectorMath + TimestampMath>(
    m: M,
    iq: Seq<Iq>,
    rate: Real64,
    per: nat,
    start_secs: Real64,
    ps: Seq<Seq<u8>>,
)
    requires
        0 < per <= MAX_FRAMED_SAMPLES,
        are_stream_packets(m, iq, rate, per, start_secs, ps),
    ensures
        walk(concatenation(ps)) == ps.map_values(|p: Seq<u8>| Ok::<Seq<u8>, ParseError>(p)),
{
    assert forall|i: int| 0 <= i < ps.len() implies well_framed(#[trigger] ps[i]) by {
        lemma_packet_payload(m, iq, rate, per, start_secs, ps, i);
    }
    walk_recovers_the_packets(ps);
}

proof fn lemma_chunk_bounds(n: nat, per: nat, i: int)
    requires
        per > 0,
        0 <= i < packet_total(n, per),
    ensures
        0 <= i * per < n,
{
    let t = packet_total(n, per) as int;
    let q = per as int;
    let a = n + q - 1;
    assert(t * q <= a) by (nonlinear_arith)
        requires
            t == a / q,
            q > 0,
    ;
    assert(0 <= i * q && i * q + q <= t * q) by (nonlinear_arith)
        requires
            0 <= i < t,
            q > 0,
    ;
}

/// What packet `i` of a stream carries.
proof fn lemma_packet_payload<M: VectorMath + TimestampMath>(
    m: M,
    iq: Seq<Iq>,
    rate: Real64,
    per: nat,
    start_secs: Real64,
    ps: Seq<Seq<u8>>,
    i: int,
)
    requires
        0 < per <= MAX_FRAMED_SAMPLES,
        are_stream_packets(m, iq, rate, per, start_secs, ps),
        0 <= i < ps.len(),
    ensures
        well_framed(ps[i]),
        components(ps[i].skip(HEADER_BYTES as int)) == interleaved_sc16(chunk(iq, per, i)),
{
    let part = interleaved_sc16(chunk(iq, per, i));
    lemma_chunk_bounds(iq.len(), per, i);
    assert(is_stream_packet(m, iq, rate, per, start_secs, i, ps[i]));
    let ts = choose|ts: Real64| #[trigger]
        call_ensures(M::packet_time, (&m, start_secs, (i * per) as usize, rate), ts) && is_built(
            m,
            part,
            ts,
            rate,
            ps[i],
        );
    assert(part.len() % 2 == 0 && part.len() / 2 <= per);
    lemma_built_payload(m, part, ts, rate, ps[i]);
}

/// What a built packet carries.
proof fn lemma_built_payload<M: TimestampMath>(
    m: M,
    part: Seq<i16>,
    ts: Real64,
    rate: Real64,
    buf: Seq<u8>,
)
    requires
        part.len() % 2 == 0,
        part.len() / 2 <= MAX_FRAMED_SAMPLES,
        is_built(m, part, ts, rate, buf),
    ensures
        well_framed(buf),
        components(buf.skip(HEADER_BYTES as int)) == part,
{
    let (whole, frac) = choose|whole: Real64, frac: Real64|
        #![trigger fraction_gives(m, ts, whole, rate, frac)]
        whole_seconds_gives(m, ts, whole) && fraction_gives(m, ts, whole, rate, frac) && buf
            == frame_bytes(part, stamp(whole, frac, rate).0, stamp(whole, frac, rate).1);
    let fields = stamp(whole, frac, rate);
    built_packets_are_well_framed(part, fields.0, fields.1);
    lemma_frame_fields(part, fields.0, fields.1);
    payload_round_trips(whole_pairs(part));
    assert(whole_pairs(part) =~= part);
}

/// The samples that packets carry, one after the other.
pub open spec fn carried_components(ps: Seq<Seq<u8>>) -> Seq<i16>
    decreases ps.len(),
{
    if ps.len() == 0 {
        seq![]
    } else {
        carried_components(ps.drop_last()) + components(ps.last().skip(HEADER_BYTES as int))
    }
}

/// No sample is lost or moved: what the packets of a stream carry, one after the
/// other, is the whole signal.
pub proof fn streams_preserve_every_sample<M: VectorMath + TimestampMath>(
    m: M,
    iq: Seq<Iq>,
    rate: Real64,
    per: nat,
    start_secs: Real64,
    ps: Seq<Seq<u8>>,
)
    requires
        0 < per <= MAX_FRAMED_SAMPLES,
        are_stream_packets(m, iq, rate, per, start_secs, ps),
    ensures
        carried_components(ps) == interleaved_sc16(iq),
{
    lemma_carried_prefix(m, iq, rate, per, start_secs, ps, ps.len() as int);
    let t = ps.len() as int;
    let q = per as int;
    let n = iq.len() as int;
    assert(n <= t * q) by (nonlinear_arith)
        requires
            t == (n + q - 1) / q,
            q > 0,
    ;
    assert(ps.take(t) =~= ps);
    assert(iq.take(n) =~= iq);
}

proof fn lemma_take_joins(iq: Seq<Iq>, start: int, end: int)
    requires
        0 <= start <= end <= iq.len(),
    ensures
        interleaved_sc16(iq.take(end)) == interleaved_sc16(iq.take(start)) + interleaved_sc16(
            iq.subrange(start, end),
        ),
{
    lemma_interleaved_join(iq.take(start), iq.subrange(start, end));
    assert(iq.take(start) + iq.subrange(start, end) =~= iq.take(end));
}

#[verifier::spinoff_prover]
#[verifier::rlimit(40)]
proof fn lemma_carried_prefix<M: VectorMath + TimestampMath>(
    m: M,
    iq: Seq<Iq>,
    rate: Real64,
    per: nat,
    start_secs: Real64,
    ps: Seq<Seq<u8>>,
    k: int,
)
    requires
        0 < per <= MAX_FRAMED_SAMPLES,
        are_stream_packets(m, iq, rate, per, start_secs, ps),
        0 <= k <= ps.len(),
    ensures
        carried_components(ps.take(k)) == interleaved_sc16(
            iq.take(
                if k * per <= iq.len() {
                    k * per
                } else {
                    iq.len() as int
                },
            ),
        ),
    decreases k,
{
    if k == 0 {
        assert(0 * per == 0) by (nonlinear_arith);
        assert(ps.take(0) =~= seq![]);
        assert(interleaved_sc16(iq.take(0)) =~= seq![]);
    } else {
        lemma_carried_prefix(m, iq, rate, per, start_secs, ps, k - 1);
        lemma_packet_payload(m, iq, rate, per, start_secs, ps, k - 1);
        lemma_chunk_bounds(iq.len(), per, k - 1);
        assert(ps.take(k).drop_last() =~= ps.take(k - 1));
        let start = (k - 1) * per;
        assert(k * per == start + per) by (nonlinear_arith)
            requires
                start == (k - 1) * per,
        ;
        let end = if k * per <= iq.len() {
            k * per
        } else {
            iq.len() as int
        };
        assert(chunk(iq, per, k - 1) == iq.subrange(start, end));
        lemma_take_joins(iq, start, end);
    }
}

proof fn lemma_interleaved_join(a: Seq<Iq>, b: Seq<Iq>)
    ensures
        interleaved_sc16(a + b) == interleaved_sc16(a) + interleaved_sc16(b),
{
    let all = interleaved_sc16(a + b);
    let two = interleaved_sc16(a) + interleaved_sc16(b);
    assert forall|k: int| 0 <= k < all.len() implies all[k] == two[k] by {
        if k >= 2 * a.len() {
            let j = k - 2 * a.len();
            assert(k / 2 == a.len() + j / 2);
            assert(k % 2 == j % 2);
        }
    }
    assert(all =~= two);
}

/// The sample counter of a stream is continuous: packet `i` stands at `i` packets'
/// worth of samples after the start, where the arithmetic places its time within
/// half a sample of that and gives whole seconds in samples as they are.
pub proof fn stream_counters_are_continuous<M: VectorMath + TimestampMath>(
    m: M,
    iq: Seq<Iq>,
    rate: Real64,
    per: nat,
    start_secs: Real64,
    start_at: int,
    ps: Seq<Seq<u8>>,
    i: int,
    p: Packet,
    scaled: Real64,
)
    requires
        0 < per <= MAX_FRAMED_SAMPLES,
        are_stream_packets(m, iq, rate, per, start_secs, ps),
        0 <= i < ps.len(),
        forall|ts: Real64| #[trigger]
            call_ensures(M::packet_time, (&m, start_secs, (i * per) as usize, rate), ts) ==> lands_on(
                m,
                ts,
                rate,
                start_at + i * per,
            ),
        has_fields_of(p, ps[i]),
        scaled.cast_unsigned(u64::MAX as nat) == p.ts_int * rate.cast_unsigned(u64::MAX as nat),
    ensures
        counter_value(scaled, p.ts_frac) == start_at + i * per,
        p.payload@.len() / 4 == if (i + 1) * per <= iq.len() {
            per as int
        } else {
            iq.len() - i * per
        },
{
    let part = interleaved_sc16(chunk(iq, per, i));
    lemma_chunk_bounds(iq.len(), per, i);
    assert((i + 1) * per == i * per + per) by (nonlinear_arith);
    assert(is_stream_packet(m, iq, rate, per, start_secs, i, ps[i]));
    let ts = choose|ts: Real64| #[trigger]
        call_ensures(M::packet_time, (&m, start_secs, (i * per) as usize, rate), ts) && is_built(
            m,
            part,
            ts,
            rate,
            ps[i],
        );
    timestamps_are_exact_to_the_sample(m, part, ts, rate, start_at + i * per, ps[i], p);
    assert(p.payload@.len() / 4 == chunk(iq, per, i).len()) by {
        lemma_packet_payload(m, iq, rate, per, start_secs, ps, i);
        assert(components(p.payload@).len() == part.len());
    }
}

/// Sample `k` of the signal is the carrier at its own time, scaled by the envelope
/// at the same time: the carrier's amplitude, modulated with the tone.
pub proof fn samples_follow_the_am_formula<M: VectorMath>(
    m: M,
    spec: AmTone,
    depth: Real64,
    k: usize,
    s: Iq,
)
    requires
        is_am_sample(m, spec, depth, k, s),
    ensures
        exists|t: Real64, tone: Real64, env: Real64, carrier: Real64|
            #![trigger call_ensures(M::modulated, (&m, spec.amplitude, depth, tone), env), call_ensures(M::angle, (&m, spec.offset_hz, t), carrier)]
            {
                &&& call_ensures(M::sample_time, (&m, k, spec.sample_rate), t)
                &&& call_ensures(M::angle, (&m, spec.tone_hz, t), tone)
                &&& call_ensures(M::modulated, (&m, spec.amplitude, depth, tone), env)
                &&& call_ensures(M::angle, (&m, spec.offset_hz, t), carrier)
                &&& call_ensures(M::in_phase, (&m, env, carrier), s.i)
                &&& call_ensures(M::quadrature, (&m, env, carrier), s.q)
            },
{
    let (t, env, a) = choose|t: Real64, env: Real64, a: Real64|
        #![trigger is_envelope_at(m, spec, depth, t, env), angle_gives(m, spec.offset_hz, t, a)]
        {
            &&& call_ensures(M::sample_time, (&m, k, spec.sample_rate), t)
            &&& is_envelope_at(m, spec, depth, t, env)
            &&& angle_gives(m, spec.offset_hz, t, a)
            &&& call_ensures(M::in_phase, (&m, env, a), s.i)
            &&& call_ensures(M::quadrature, (&m, env, a), s.q)
        };
    let tone = choose|tone: Real64| #[trigger]
        angle_gives(m, spec.tone_hz, t, tone) && call_ensures(
            M::modulated,
            (&m, spec.amplitude, depth, tone),
            env,
        );
    assert(call_ensures(M::modulated, (&m, spec.amplitude, depth, tone), env));
    assert(call_ensures(M::angle, (&m, spec.offset_hz, t), a));
}

/// The modulation is as deep as asked for, between none and full.
pub proof fn the_depth_stays_between_none_and_full(spec: AmTone)
    ensures
        ({
            let none = Real64 { bits: 0 };
            let full = Real64 { bits: 0x3FF0_0000_0000_0000 };
            &&& spec.depth.less(none) ==> spec.used_depth() == none
            &&& full.less(spec.depth) ==> spec.used_depth() == full
            &&& !spec.depth.less(none) && !full.less(spec.depth) ==> spec.used_depth() == spec.depth
        }),
{
}

/// Packet `i` of a stream is stamped with the time of sample `i * per` of it, and
/// carries the samples from there on, at most `per` of them.
pub proof fn stream_packets_carry_their_own_samples<M: VectorMath + TimestampMath>(
    m: M,
    iq: Seq<Iq>,
    rate: Real64,
    per: nat,
    start_secs: Real64,
    ps: Seq<Seq<u8>>,
    i: int,
)
    requires
        per > 0,
        are_stream_packets(m, iq, rate, per, start_secs, ps),
        0 <= i < ps.len(),
    ensures
        0 <= i * per < iq.len(),
        exists|ts: Real64| #[trigger]
            call_ensures(M::packet_time, (&m, start_secs, (i * per) as usize, rate), ts) && is_built(
                m,
                interleaved_sc16(
                    iq.subrange(
                        i * per,
                        if i * per + per <= iq.len() {
                            i * per + per
                        } else {
                            iq.len() as int
                        },
                    ),
                ),
                ts,
                rate,
                ps[i],
            ),
        (ps.len() - 1) * per < iq.len() <= ps.len() * per,
{
    lemma_chunk_bounds(iq.len(), per, i);
    lemma_chunk_bounds(iq.len(), per, ps.len() - 1);
    assert(is_stream_packet(m, iq, rate, per, start_secs, i, ps[i]));
    let n = iq.len() as int;
    let q = per as int;
    let t = ps.len() as int;
    assert(n <= t * q) by (nonlinear_arith)
        requires
            t == (n + q - 1) / q,
            q > 0,
    ;
}

} // verus!

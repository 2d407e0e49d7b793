//! Complex samples, sc16 conversion and level measurement.
//!
//! The wire carries interleaved 16-bit components; the signal path works on
//! single-precision numbers with full scale at one. Both conversions are exact:
//! one divides by a power of two, the other rounds to the nearest integer, half
//! away from zero, and saturates.

use vstd::prelude::*;
#[allow(unused_imports)]
use vstd::arithmetic::power2::{lemma2_to64, lemma_pow2_adds, lemma_pow2_pos, lemma_pow2_strictly_increases, pow2};
use crate::ieee::{Real32, Real64, FRAC32, INF32, SIGN32};
#[allow(unused_imports)]
use crate::ieee::{capped, scaled_round};

verus! {

/// Negative infinity in single precision.
pub const NEG_INFINITY32: u32 = 0xFF80_0000;

/// One complex baseband sample, normalized so that full scale is one.
#[derive(Clone, Copy, Debug, PartialEq, Eq, Structural)]
pub struct Iq {
    /// In-phase component.
    pub i: Real32,
    /// Quadrature component.
    pub q: Real32,
}

/// Floating-point arithmetic behind sample levels.
pub trait LevelMath {
    /// `i * i + q * q`.
    fn power(&self, s: Iq) -> Real32;

    /// Square root of [`Self::power`].
    fn magnitude(&self, s: Iq) -> Real32;

    /// `sum + power(s)` in double precision.
    fn accumulate_power(&self, sum: Real64, s: Iq) -> Real64;

    /// `sum / n`, rounded to single precision.
    fn mean(&self, sum: Real64, n: usize) -> Real32;

    /// `10 * log10(p)`.
    fn decibels(&self, p: Real32) -> Real32;
}

/// `p` is what `m` gives for the power of `s`.
pub open spec fn power_gives<M: LevelMath>(m: M, s: Iq, p: Real32) -> bool {
    call_ensures(M::power, (&m, s), p)
}

/// `a` is what `m` gives for the magnitude of `s`.
pub open spec fn magnitude_gives<M: LevelMath>(m: M, s: Iq, a: Real32) -> bool {
    call_ensures(M::magnitude, (&m, s), a)
}

/// `next` is what `m` gives for `sum` plus the power of `s`.
pub open spec fn accumulate_gives<M: LevelMath>(m: M, sum: Real64, s: Iq, next: Real64) -> bool {
    call_ensures(M::accumulate_power, (&m, sum, s), next)
}

/// `p` is what `m` gives for `sum` divided by `n`.
pub open spec fn mean_gives<M: LevelMath>(m: M, sum: Real64, n: usize, p: Real32) -> bool {
    call_ensures(M::mean, (&m, sum, n), p)
}

/// `db` is what `m` gives for `p` in decibels.
pub open spec fn decibels_gives<M: LevelMath>(m: M, p: Real32, db: Real32) -> bool {
    call_ensures(M::decibels, (&m, p), db)
}

impl Iq {
    /// A sample from its components.
    pub fn new(i: Real32, q: Real32) -> (s: Self)
        ensures
            s == (Iq { i, q }),
    {
        Iq { i, q }
    }

    /// The origin.
    pub fn zero() -> (s: Self)
        ensures
            s == (Iq { i: Real32 { bits: 0 }, q: Real32 { bits: 0 } }),
    {
        Iq { i: Real32 { bits: 0 }, q: Real32 { bits: 0 } }
    }

    /// Instantaneous power.
    pub fn power<M: LevelMath>(self, m: &M) -> (p: Real32)
        ensures
            power_gives(*m, self, p),
    {
        m.power(self)
    }

    /// Instantaneous magnitude.
    pub fn magnitude<M: LevelMath>(self, m: &M) -> (a: Real32)
        ensures
            magnitude_gives(*m, self, a),
    {
        m.magnitude(self)
    }
}

/// `r` is exactly `c / 32768`.
pub open spec fn is_normalized(r: Real32, c: int) -> bool {
    if c == 0 {
        r.bits == 0
    } else {
        &&& r.finite()
        &&& r.negative() == (c < 0)
        &&& -38 <= r.exponent() <= -23
        &&& r.mantissa() * pow2(15) == (if c < 0 {
            -c
        } else {
            c
        }) * pow2((-r.exponent()) as nat)
    }
}

/// The sc16 component `c` on the normalized scale: exactly `c / 32768`.
pub fn normalize(c: i16) -> (r: Real32)
    ensures
        is_normalized(r, c as int),
{
    if c == 0 {
        return Real32 { bits: 0 };
    }
    let a: u32 = if c < 0 {
        (-(c as i32)) as u32
    } else {
        c as u32
    };
    let mut p: u32 = 0;
    let mut top: u32 = 1;
    let mut scale: u32 = FRAC32;
    proof {
        lemma2_to64();
    }
    while top * 2 <= a
        invariant
            1 <= a <= 32768,
            p <= 15,
            1 <= top <= a,
            top == pow2(p as nat),
            scale == pow2((23 - p) as nat),
            top * scale == FRAC32,
        decreases a - top,
    {
        proof {
            lemma_pow2_adds(1, p as nat);
            lemma_pow2_adds(1, (22 - p) as nat);
            lemma2_to64();
            lemma_pow2_pos((22 - p) as nat);
            if p >= 15 {
                assert(pow2(15) == 32768);
                assert(false);
            }
            let half = pow2((22 - p) as nat);
            assert(scale == 2 * half);
            assert((2 * top) * half == top * (2 * half)) by (nonlinear_arith);
        }
        top = top * 2;
        scale = scale / 2;
        p = p + 1;
    }
    proof {
        assert(FRAC32 <= a * scale < 2 * FRAC32) by (nonlinear_arith)
            requires
                top <= a < 2 * top,
                top * scale == FRAC32,
                scale >= 0,
        ;
    }
    let mantissa: u32 = a * scale;
    let magnitude: u32 = (p + 112) * FRAC32 + (mantissa - FRAC32);
    let r = Real32 {
        bits: if c < 0 {
            magnitude + SIGN32
        } else {
            magnitude
        },
    };
    proof {
        assert(r.magnitude() == magnitude);
        assert(r.magnitude() / (FRAC32 as int) == p + 112);
        assert(r.magnitude() % (FRAC32 as int) == mantissa - FRAC32);
        assert(r.mantissa() == mantissa);
        assert(r.exponent() == p - 38);
        lemma_pow2_adds(15, (23 - p) as nat);
        let s15 = pow2(15);
        let sc = scale as int;
        let aa = a as int;
        assert((aa * sc) * s15 == aa * (s15 * sc)) by (nonlinear_arith);
    }
    r
}

/// `32768 * v` rounded to the nearest integer, half away from zero, and clamped
/// to the 16-bit range. NaN gives zero.
pub open spec fn quantized(v: Real32) -> int {
    let steps = scaled_round(v.mantissa(), v.exponent() + 15);
    if v.nan() {
        0
    } else if v.negative() {
        if v.finite() {
            -(capped(steps, 32768) as int)
        } else {
            -32768
        }
    } else if v.finite() {
        capped(steps, 32767) as int
    } else {
        32767
    }
}

/// The sc16 component nearest to the normalized `v`, saturating.
pub fn quantize(v: Real32) -> (c: i16)
    ensures
        c == quantized(v),
{
    let magnitude: u32 = if v.bits >= SIGN32 {
        v.bits - SIGN32
    } else {
        v.bits
    };
    if magnitude > INF32 {
        return 0;
    }
    let e: u32 = magnitude / FRAC32;
    let f: u32 = magnitude % FRAC32;
    let steps: u32 = if magnitude == INF32 {
        65536
    } else if e < 111 {
        // `2^(e - 135)` scales a mantissa below `2^24`: nothing reaches one half.
        proof {
            lemma_tiny_rounds_to_zero(v.mantissa(), v.exponent() + 15);
        }
        0
    } else if e < 135 {
        let k: u32 = 135 - e;
        let half = power_of_two(k - 1);
        let mantissa: u32 = f + FRAC32;
        proof {
            lemma_pow2_adds(1, (k - 1) as nat);
            lemma2_to64();
        }
        (mantissa + half) / (half * 2)
    } else {
        proof {
            let k = (e - 135) as nat;
            lemma_pow2_pos(k);
            let mm = v.mantissa();
            let pk = pow2(k);
            assert(mm * pk >= mm) by (nonlinear_arith)
                requires
                    pk >= 1,
            ;
        }
        65536
    };
    if v.bits >= SIGN32 {
        if steps >= 32768 {
            -32768
        } else {
            -(steps as i16)
        }
    } else if steps >= 32767 {
        32767
    } else {
        steps as i16
    }
}

/// `2^k`.
fn power_of_two(k: u32) -> (r: u32)
    requires
        k <= 24,
    ensures
        r == pow2(k as nat),
        1 <= r <= 0x100_0000,
{
    let mut r: u32 = 1;
    let mut n: u32 = 0;
    proof {
        lemma2_to64();
    }
    while n < k
        invariant
            n <= k <= 24,
            r == pow2(n as nat),
            1 <= r,
        decreases k - n,
    {
        proof {
            lemma_pow2_adds(1, n as nat);
            lemma2_to64();
            if n + 1 < 24 {
                lemma_pow2_strictly_increases((n + 1) as nat, 24);
            }
        }
        r = r * 2;
        n = n + 1;
    }
    proof {
        if k < 24 {
            lemma_pow2_strictly_increases(k as nat, 24);
        }
        lemma2_to64();
    }
    r
}

proof fn lemma_tiny_rounds_to_zero(mantissa: nat, exponent: int)
    requires
        mantissa < 0x100_0000,
        exponent < -24,
    ensures
        scaled_round(mantissa, exponent) == 0,
{
    let k = (-exponent) as nat;
    let h = pow2((k - 1) as nat);
    lemma2_to64();
    if k - 1 > 24 {
        lemma_pow2_strictly_increases(24, (k - 1) as nat);
    }
    lemma_pow2_adds(1, (k - 1) as nat);
    lemma_pow2_pos(k);
    assert((mantissa + h) / (2 * h) == 0) by (nonlinear_arith)
        requires
            mantissa < h,
    ;
}

/// Conversions round-trip: normalizing a component and quantizing it again gives
/// it back.
pub proof fn conversion_round_trips(c: int, r: Real32)
    requires
        i16::MIN <= c <= i16::MAX,
        is_normalized(r, c),
    ensures
        quantized(r) == c,
{
    if c == 0 {
        lemma_tiny_rounds_to_zero(0, r.exponent() + 15);
    } else {
        let a = if c < 0 {
            -c
        } else {
            c
        };
        let k = (-r.exponent() - 15) as nat;
        lemma_pow2_adds(15, k);
        lemma_pow2_adds(1, (k - 1) as nat);
        lemma2_to64();
        lemma_pow2_pos((k - 1) as nat);
        let m = r.mantissa() as int;
        let p15 = pow2(15) as int;
        let pk = pow2(k) as int;
        let h = pow2((k - 1) as nat) as int;
        assert(m == a * pk) by (nonlinear_arith)
            requires
                m * p15 == a * (p15 * pk),
                p15 == 32768,
        ;
        assert((m + h) / pk == a) by (nonlinear_arith)
            requires
                m == a * pk,
                pk == 2 * h,
                h > 0,
        ;
    }
}

/// Convert interleaved sc16 `[I0, Q0, I1, Q1, ...]` to normalized samples. A
/// trailing unpaired element is ignored.
pub fn sc16_to_iq(interleaved: &[i16]) -> (out: Vec<Iq>)
    ensures
        out@.len() == interleaved@.len() / 2,
        forall|k: int|
            0 <= k < out@.len() ==> is_normalized((#[trigger] out@[k]).i, interleaved@[2 * k] as int)
                && is_normalized(out@[k].q, interleaved@[2 * k + 1] as int),
{
    let n: usize = interleaved.len() / 2;
    let mut out: Vec<Iq> = Vec::new();
    let mut k: usize = 0;
    while k < n
        invariant
            k <= n,
            n == interleaved@.len() / 2,
            interleaved@.len() == interleaved.len(),
            out@.len() == k,
            forall|j: int|
                0 <= j < k ==> is_normalized((#[trigger] out@[j]).i, interleaved@[2 * j] as int)
                    && is_normalized(out@[j].q, interleaved@[2 * j + 1] as int),
        decreases n - k,
    {
        out.push(Iq { i: normalize(interleaved[2 * k]), q: normalize(interleaved[2 * k + 1]) });
        k = k + 1;
    }
    out
}

/// The interleaved sc16 components of `iq`.
pub open spec fn interleaved_sc16(iq: Seq<Iq>) -> Seq<i16> {
    Seq::new(
        2 * iq.len(),
        |n: int|
            (if n % 2 == 0 {
                quantized(iq[n / 2].i)
            } else {
                quantized(iq[n / 2].q)
            }) as i16,
    )
}

/// Convert normalized samples to interleaved sc16, saturating rather than
/// wrapping.
pub fn iq_to_sc16(iq: &[Iq]) -> (out: Vec<i16>)
    ensures
        out@ == interleaved_sc16(iq@),
{
    let mut out: Vec<i16> = Vec::new();
    let mut k: usize = 0;
    while k < iq.len()
        invariant
            k <= iq@.len(),
            out@ == interleaved_sc16(iq@.take(k as int)),
        decreases iq.len() - k,
    {
        let s: Iq = iq[k];
        out.push(quantize(s.i));
        out.push(quantize(s.q));
        k = k + 1;
        assert(out@ =~= interleaved_sc16(iq@.take(k as int)));
    }
    assert(iq@.take(k as int) =~= iq@);
    out
}

/// `sums` are the running power sums of `iq`, starting at zero.
pub open spec fn power_sums<M: LevelMath>(m: M, iq: Seq<Iq>, sums: Seq<Real64>) -> bool {
    &&& sums.len() == iq.len() + 1
    &&& sums[0].bits == 0
    &&& forall|k: int| 0 <= k < iq.len() ==> #[trigger] accumulate_gives(m, sums[k], iq[k], sums[k + 1])
}

/// `p` is the mean power of a non-empty `iq`.
pub open spec fn is_mean_power<M: LevelMath>(m: M, iq: Seq<Iq>, p: Real32) -> bool {
    exists|sums: Seq<Real64>| #[trigger]
        power_sums(m, iq, sums) && mean_gives(m, sums.last(), iq.len() as usize, p)
}

/// Mean power over the slice; `None` for an empty slice.
pub fn mean_power<M: LevelMath>(iq: &[Iq], m: &M) -> (r: Option<Real32>)
    ensures
        match r {
            Some(p) => iq@.len() > 0 && is_mean_power(*m, iq@, p),
            None => iq@.len() == 0,
        },
{
    if iq.len() == 0 {
        return None;
    }
    let mut sum = Real64 { bits: 0 };
    let ghost mut sums: Seq<Real64> = seq![sum];
    let mut k: usize = 0;
    while k < iq.len()
        invariant
            k <= iq@.len(),
            sums.len() == k + 1,
            sums[0].bits == 0,
            sums.last() == sum,
            forall|j: int| 0 <= j < k ==> #[trigger] accumulate_gives(*m, sums[j], iq@[j], sums[j + 1]),
        decreases iq.len() - k,
    {
        let next = m.accumulate_power(sum, iq[k]);
        proof {
            assert(accumulate_gives(*m, sum, iq@[k as int], next));
            let grown = sums.push(next);
            assert forall|j: int| 0 <= j < k + 1 implies #[trigger] accumulate_gives(
                *m,
                grown[j],
                iq@[j],
                grown[j + 1],
            ) by {
                if j < k {
                    assert(accumulate_gives(*m, sums[j], iq@[j], sums[j + 1]));
                }
            }
            sums = grown;
        }
        sum = next;
        k = k + 1;
    }
    let p = m.mean(sum, iq.len());
    assert(power_sums(*m, iq@, sums));
    assert(mean_gives(*m, sums.last(), iq@.len() as usize, p));
    Some(p)
}

/// `db` is the level of `iq` relative to full scale.
pub open spec fn is_power_dbfs<M: LevelMath>(m: M, iq: Seq<Iq>, db: Real32) -> bool {
    if iq.len() == 0 {
        db.bits == NEG_INFINITY32
    } else {
        exists|p: Real32| #[trigger]
            is_mean_power(m, iq, p) && if p.positive() {
                decibels_gives(m, p, db)
            } else {
                db.bits == NEG_INFINITY32
            }
    }
}

/// Mean power in decibels relative to a full-scale complex signal; negative
/// infinity for silence and for an empty slice.
pub fn power_dbfs<M: LevelMath>(iq: &[Iq], m: &M) -> (db: Real32)
    ensures
        is_power_dbfs(*m, iq@, db),
{
    match mean_power(iq, m) {
        Some(p) => if p.is_positive() {
            let db = m.decibels(p);
            assert(decibels_gives(*m, p, db));
            db
        } else {
            Real32 { bits: NEG_INFINITY32 }
        },
        None => Real32 { bits: NEG_INFINITY32 },
    }
}

/// `out` is the magnitude of `iq`, sample by sample, as a real signal.
pub open spec fn is_envelope<M: LevelMath>(m: M, iq: Seq<Iq>, out: Seq<Iq>) -> bool {
    &&& out.len() == iq.len()
    &&& forall|k: int|
        0 <= k < iq.len() ==> magnitude_gives(m, iq[k], (#[trigger] out[k]).i) && out[k].q.bits == 0
}

/// Magnitude envelope as a real signal.
pub fn envelope<M: LevelMath>(iq: &[Iq], m: &M) -> (out: Vec<Iq>)
    ensures
        is_envelope(*m, iq@, out@),
{
    let mut out: Vec<Iq> = Vec::new();
    let mut k: usize = 0;
    while k < iq.len()
        invariant
            k <= iq@.len(),
            is_envelope(*m, iq@.take(k as int), out@),
        decreases iq.len() - k,
    {
        let a = iq[k].magnitude(m);
        out.push(Iq { i: a, q: Real32 { bits: 0 } });
        k = k + 1;
        proof {
            let seen = iq@.take(k as int);
            assert forall|j: int| 0 <= j < seen.len() implies magnitude_gives(
                *m,
                seen[j],
                (#[trigger] out@[j]).i,
            ) && out@[j].q.bits == 0 by {
                if j < k - 1 {
                    assert(seen[j] == iq@.take(k - 1)[j]);
                }
            }
        }
    }
    assert(iq@.take(k as int) =~= iq@);
    out
}

} // verus!

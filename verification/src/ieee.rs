//! IEEE 754 binary32 and binary64 values, held by their bit patterns.
//!
//! The signal chain stores rates, levels and samples as floating-point numbers.
//! This module gives such a number a plain integer representation and the parts
//! of its behaviour that are decisions rather than arithmetic: whether it is
//! finite, how two of them compare, and which integer a truncating cast yields.
//! Arithmetic on them is supplied by the caller, operation by operation, through
//! the `..Math` traits of the modules that need it.

use vstd::prelude::*;
#[allow(unused_imports)]
use vstd::arithmetic::power2::{lemma2_to64, lemma2_to64_rest, lemma_pow2_adds, lemma_pow2_pos, lemma_pow2_strictly_increases};
#[allow(unused_imports)]
use vstd::arithmetic::power2::pow2;
#[allow(unused_imports)]
use vstd::bits::{lemma_u64_mul_pow2_le_max_iff_max_shr, lemma_u64_shl_is_mul, lemma_u64_shr_is_div};

verus! {

/// Sign bit of a binary64 pattern.
pub const SIGN64: u64 = 0x8000_0000_0000_0000;

/// Magnitude of a binary64 infinity; larger magnitudes are NaN.
pub const INF64: u64 = 0x7FF0_0000_0000_0000;

/// Weight of the lowest exponent bit of a binary64 pattern (`2^52`).
pub const FRAC64: u64 = 0x0010_0000_0000_0000;

/// Sign bit of a binary32 pattern.
pub const SIGN32: u32 = 0x8000_0000;

/// Magnitude of a binary32 infinity; larger magnitudes are NaN.
pub const INF32: u32 = 0x7F80_0000;

/// Weight of the lowest exponent bit of a binary32 pattern (`2^23`).
pub const FRAC32: u32 = 0x0080_0000;

/// A double-precision number. Equality of two values is equality of the bits.
#[derive(Clone, Copy, Debug, PartialEq, Eq, Structural)]
pub struct Real64 {
    /// The IEEE 754 bit pattern.
    pub bits: u64,
}

/// A single-precision number. Equality of two values is equality of the bits.
#[derive(Clone, Copy, Debug, PartialEq, Eq, Structural)]
pub struct Real32 {
    /// The IEEE 754 bit pattern.
    pub bits: u32,
}

/// Integer part of `mantissa * 2^exponent`.
pub open spec fn scaled_whole(mantissa: nat, exponent: int) -> nat {
    if exponent >= 0 {
        mantissa * pow2(exponent as nat)
    } else {
        mantissa / pow2((-exponent) as nat)
    }
}

/// `mantissa * 2^exponent` rounded to the nearest integer, halves upwards.
pub open spec fn scaled_round(mantissa: nat, exponent: int) -> nat {
    if exponent >= 0 {
        mantissa * pow2(exponent as nat)
    } else {
        (mantissa + pow2((-exponent - 1) as nat)) / pow2((-exponent) as nat)
    }
}

/// The smaller of a natural number and a bound.
pub open spec fn capped(v: nat, limit: nat) -> nat {
    if v <= limit {
        v
    } else {
        limit
    }
}

/// Integer part of `mantissa * 2^exponent`, saturating at `u64::MAX`.
fn scaled_floor(mantissa: u64, exponent: i32) -> (r: u64)
    requires
        -2000 <= exponent <= 2000,
    ensures
        r == capped(scaled_whole(mantissa as nat, exponent as int), u64::MAX as nat),
{
    proof {
        lemma2_to64();
        lemma2_to64_rest();
    }
    if exponent < 0 {
        let k: u64 = (-exponent) as u64;
        proof {
            lemma_pow2_pos(k as nat);
        }
        if k >= 64 {
            proof {
                if k > 64 {
                    lemma_pow2_strictly_increases(64, k as nat);
                }
                assert(mantissa as nat / pow2(k as nat) == 0) by (nonlinear_arith)
                    requires
                        (mantissa as nat) < pow2(k as nat),
                ;
            }
            0
        } else {
            proof {
                lemma_u64_shr_is_div(mantissa, k);
            }
            mantissa >> k
        }
    } else {
        let k: u64 = exponent as u64;
        proof {
            lemma_pow2_pos(k as nat);
        }
        if mantissa == 0 {
            return 0;
        }
        if k >= 64 {
            proof {
                if k > 64 {
                    lemma_pow2_strictly_increases(64, k as nat);
                }
                assert(mantissa as nat * pow2(k as nat) >= pow2(k as nat)) by (nonlinear_arith)
                    requires
                        mantissa >= 1,
                        pow2(k as nat) > 0,
                ;
            }
            u64::MAX
        } else {
            proof {
                lemma_u64_mul_pow2_le_max_iff_max_shr(mantissa, k, u64::MAX);
            }
            if mantissa <= (u64::MAX >> k) {
                proof {
                    lemma_u64_shl_is_mul(mantissa, k);
                }
                mantissa << k
            } else {
                u64::MAX
            }
        }
    }
}

/// `mantissa * 2^exponent` rounded to the nearest integer, halves upwards and
/// saturating at `u64::MAX`.
fn scaled_nearest(mantissa: u64, exponent: i32) -> (r: u64)
    requires
        mantissa < 2 * FRAC64,
        -2000 <= exponent <= 2000,
    ensures
        r == capped(scaled_round(mantissa as nat, exponent as int), u64::MAX as nat),
{
    if exponent >= 0 {
        return scaled_floor(mantissa, exponent);
    }
    let k: u64 = (-exponent) as u64;
    proof {
        lemma2_to64();
        lemma2_to64_rest();
        lemma_pow2_adds(1, (k - 1) as nat);
        lemma_pow2_pos(k as nat);
    }
    if k > 54 {
        proof {
            let h = pow2((k - 1) as nat) as int;
            if k > 55 {
                lemma_pow2_strictly_increases(54, (k - 1) as nat);
            }
            assert((mantissa + h) / (2 * h) == 0) by (nonlinear_arith)
                requires
                    mantissa < h,
            ;
        }
        0
    } else {
        proof {
            if k < 54 {
                lemma_pow2_strictly_increases((k - 1) as nat, 53);
            }
            lemma_u64_shl_is_mul(1, (k - 1) as u64);
        }
        let half: u64 = 1u64 << (k - 1);
        proof {
            lemma_u64_shr_is_div((mantissa + half) as u64, k);
        }
        (mantissa + half) >> k
    }
}

impl Real64 {
    /// The pattern without its sign bit.
    pub open spec fn magnitude(self) -> int {
        if self.bits >= SIGN64 {
            self.bits - SIGN64
        } else {
            self.bits as int
        }
    }

    /// Whether the sign bit is set.
    pub open spec fn negative(self) -> bool {
        self.bits >= SIGN64
    }

    /// Not a number.
    pub open spec fn nan(self) -> bool {
        self.magnitude() > INF64
    }

    /// Neither infinite nor NaN.
    pub open spec fn finite(self) -> bool {
        self.magnitude() < INF64
    }

    /// Position on the number line: patterns of numbers compare as their ranks
    /// do, and the two zeros share one rank.
    pub open spec fn rank(self) -> int {
        if self.negative() {
            -self.magnitude()
        } else {
            self.magnitude()
        }
    }

    /// `self < other`; false when either is NaN.
    pub open spec fn less(self, other: Real64) -> bool {
        !self.nan() && !other.nan() && self.rank() < other.rank()
    }

    /// `self <= other`; false when either is NaN.
    pub open spec fn at_most(self, other: Real64) -> bool {
        !self.nan() && !other.nan() && self.rank() <= other.rank()
    }

    /// Significand as an integer, the hidden bit counted in.
    pub open spec fn mantissa(self) -> nat {
        let e = self.magnitude() / (FRAC64 as int);
        let f = self.magnitude() % (FRAC64 as int);
        if e == 0 {
            f as nat
        } else {
            (f + FRAC64) as nat
        }
    }

    /// Power of two that scales [`Self::mantissa`].
    pub open spec fn exponent(self) -> int {
        let e = self.magnitude() / (FRAC64 as int);
        if e == 0 {
            -1074
        } else {
            e - 1075
        }
    }

    /// Integer part of the absolute value of a finite number.
    pub open spec fn whole(self) -> nat {
        scaled_whole(self.mantissa(), self.exponent())
    }

    /// Absolute value of a finite number, rounded to the nearest integer, halves
    /// upwards.
    pub open spec fn nearest(self) -> nat {
        scaled_round(self.mantissa(), self.exponent())
    }

    /// A finite number less than one half away from `n`.
    pub open spec fn near(self, n: nat) -> bool {
        let m = self.mantissa();
        let d = pow2((-self.exponent()) as nat);
        &&& self.finite()
        &&& self.negative() ==> n == 0
        &&& if self.exponent() >= 0 {
            m * pow2(self.exponent() as nat) == n
        } else {
            2 * (n * d) - d < 2 * m < 2 * (n * d) + d
        }
    }

    /// The absolute value.
    pub open spec fn absolute(self) -> Real64 {
        Real64 { bits: self.magnitude() as u64 }
    }

    /// The number with its sign changed.
    pub open spec fn negation(self) -> Real64 {
        Real64 {
            bits: (if self.negative() {
                self.bits - SIGN64
            } else {
                self.bits + SIGN64
            }) as u64,
        }
    }

    /// `self` confined to `lo..=hi`; NaN stays as it is.
    pub open spec fn clamped(self, lo: Real64, hi: Real64) -> Real64 {
        if self.less(lo) {
            lo
        } else if hi.less(self) {
            hi
        } else {
            self
        }
    }

    /// The larger of `self` and `floor`; `floor` where `self` is NaN.
    pub open spec fn raised(self, floor: Real64) -> Real64 {
        if floor.less(self) {
            self
        } else {
            floor
        }
    }

    /// What a truncating cast to an unsigned type with maximum `limit` yields:
    /// NaN and negative numbers give 0, large numbers saturate.
    pub open spec fn cast_unsigned(self, limit: nat) -> nat {
        if self.nan() || self.negative() {
            0
        } else if !self.finite() {
            limit
        } else {
            capped(self.whole(), limit)
        }
    }

    /// What rounding to the nearest integer and a cast to an unsigned type with
    /// maximum `limit` yield: NaN and negative numbers give 0, large numbers
    /// saturate.
    pub open spec fn round_unsigned(self, limit: nat) -> nat {
        if self.nan() || self.negative() {
            0
        } else if !self.finite() {
            limit
        } else {
            capped(self.nearest(), limit)
        }
    }

    /// What rounding to the nearest integer, halves away from zero, and a cast to
    /// `i64` yield: NaN gives 0, and both ends saturate.
    pub open spec fn round_signed(self) -> int {
        if self.nan() {
            0
        } else if self.negative() {
            if !self.finite() {
                i64::MIN as int
            } else {
                -(capped(self.nearest(), 0x8000_0000_0000_0000) as int)
            }
        } else if !self.finite() {
            i64::MAX as int
        } else {
            capped(self.nearest(), i64::MAX as nat) as int
        }
    }

    /// The pattern without its sign bit.
    fn unsigned(self) -> (r: u64)
        ensures
            r == self.magnitude(),
    {
        if self.bits >= SIGN64 {
            self.bits - SIGN64
        } else {
            self.bits
        }
    }

    /// True when the value is not a number.
    pub fn is_nan(self) -> (r: bool)
        ensures
            r == self.nan(),
    {
        self.unsigned() > INF64
    }

    /// True when the value is neither infinite nor NaN.
    pub fn is_finite(self) -> (r: bool)
        ensures
            r == self.finite(),
    {
        self.unsigned() < INF64
    }

    /// The IEEE comparison `self < other`.
    pub fn lt(self, other: Real64) -> (r: bool)
        ensures
            r == self.less(other),
    {
        let a: u64 = self.unsigned();
        let b: u64 = other.unsigned();
        if a > INF64 || b > INF64 {
            return false;
        }
        if self.bits >= SIGN64 {
            if other.bits >= SIGN64 {
                b < a
            } else {
                a != 0 || b != 0
            }
        } else if other.bits >= SIGN64 {
            false
        } else {
            a < b
        }
    }

    /// The IEEE comparison `self <= other`.
    pub fn le(self, other: Real64) -> (r: bool)
        ensures
            r == self.at_most(other),
    {
        if self.is_nan() || other.is_nan() {
            return false;
        }
        !other.lt(self)
    }

    /// The absolute value.
    pub fn abs(self) -> (r: Real64)
        ensures
            r == self.absolute(),
    {
        Real64 { bits: self.unsigned() }
    }

    /// Change the sign.
    pub fn negated(self) -> (r: Real64)
        ensures
            r == self.negation(),
    {
        if self.bits >= SIGN64 {
            Real64 { bits: self.bits - SIGN64 }
        } else {
            Real64 { bits: self.bits + SIGN64 }
        }
    }

    /// Confine to `lo..=hi`.
    pub fn clamp(self, lo: Real64, hi: Real64) -> (r: Real64)
        ensures
            r == self.clamped(lo, hi),
    {
        if self.lt(lo) {
            lo
        } else if hi.lt(self) {
            hi
        } else {
            self
        }
    }

    /// The larger of `self` and `floor`, which is no NaN.
    pub fn max(self, floor: Real64) -> (r: Real64)
        ensures
            r == self.raised(floor),
    {
        if floor.lt(self) {
            self
        } else {
            floor
        }
    }

    /// Integer part of the absolute value, saturating at `u64::MAX`.
    fn whole_part(self) -> (r: u64)
        requires
            self.finite(),
        ensures
            r == capped(self.whole(), u64::MAX as nat),
    {
        let mag: u64 = self.unsigned();
        let e: u64 = mag / FRAC64;
        let f: u64 = mag % FRAC64;
        if e == 0 {
            scaled_floor(f, -1074)
        } else {
            scaled_floor(f + FRAC64, e as i32 - 1075)
        }
    }

    /// Truncating, saturating cast to `u64`.
    pub fn as_u64(self) -> (r: u64)
        ensures
            r == self.cast_unsigned(u64::MAX as nat),
    {
        if self.is_nan() || self.bits >= SIGN64 {
            0
        } else if !self.is_finite() {
            u64::MAX
        } else {
            self.whole_part()
        }
    }

    /// Truncating, saturating cast to `u32`.
    pub fn as_u32(self) -> (r: u32)
        ensures
            r == self.cast_unsigned(u32::MAX as nat),
    {
        let wide: u64 = self.as_u64();
        if wide > u32::MAX as u64 {
            u32::MAX
        } else {
            wide as u32
        }
    }

    /// Truncating, saturating cast to `usize`.
    pub fn as_usize(self) -> (r: usize)
        ensures
            r == self.cast_unsigned(usize::MAX as nat),
    {
        let wide: u64 = self.as_u64();
        if wide > usize::MAX as u64 {
            usize::MAX
        } else {
            wide as usize
        }
    }

    /// Absolute value, rounded to the nearest integer and saturating at
    /// `u64::MAX`.
    fn nearest_part(self) -> (r: u64)
        requires
            self.finite(),
        ensures
            r == capped(self.nearest(), u64::MAX as nat),
    {
        let mag: u64 = self.unsigned();
        let e: u64 = mag / FRAC64;
        let f: u64 = mag % FRAC64;
        if e == 0 {
            scaled_nearest(f, -1074)
        } else {
            scaled_nearest(f + FRAC64, e as i32 - 1075)
        }
    }

    /// Round to the nearest integer and cast to `u64`, saturating.
    pub fn round_u64(self) -> (r: u64)
        ensures
            r == self.round_unsigned(u64::MAX as nat),
    {
        if self.is_nan() || self.bits >= SIGN64 {
            0
        } else if !self.is_finite() {
            u64::MAX
        } else {
            self.nearest_part()
        }
    }

    /// Round to the nearest integer and cast to `usize`, saturating.
    pub fn round_usize(self) -> (r: usize)
        ensures
            r == self.round_unsigned(usize::MAX as nat),
    {
        let wide: u64 = self.round_u64();
        if wide > usize::MAX as u64 {
            usize::MAX
        } else {
            wide as usize
        }
    }

    /// Round to the nearest integer, halves away from zero, and cast to `i64`,
    /// saturating.
    pub fn round_i64(self) -> (r: i64)
        ensures
            r == self.round_signed(),
    {
        if self.is_nan() {
            return 0;
        }
        if self.bits >= SIGN64 {
            if !self.is_finite() {
                return i64::MIN;
            }
            let w: u64 = self.nearest_part();
            if w >= 0x8000_0000_0000_0000 {
                i64::MIN
            } else {
                -(w as i64)
            }
        } else {
            if !self.is_finite() {
                return i64::MAX;
            }
            let w: u64 = self.nearest_part();
            if w >= 0x8000_0000_0000_0000 {
                i64::MAX
            } else {
                w as i64
            }
        }
    }
}

impl Real32 {
    /// The pattern without its sign bit.
    pub open spec fn magnitude(self) -> int {
        if self.bits >= SIGN32 {
            self.bits - SIGN32
        } else {
            self.bits as int
        }
    }

    /// Whether the sign bit is set.
    pub open spec fn negative(self) -> bool {
        self.bits >= SIGN32
    }

    /// Not a number.
    pub open spec fn nan(self) -> bool {
        self.magnitude() > INF32
    }

    /// Neither infinite nor NaN.
    pub open spec fn finite(self) -> bool {
        self.magnitude() < INF32
    }

    /// Strictly greater than zero.
    pub open spec fn positive(self) -> bool {
        !self.nan() && !self.negative() && self.bits != 0
    }

    /// Significand as an integer, the hidden bit counted in.
    pub open spec fn mantissa(self) -> nat {
        let e = self.magnitude() / (FRAC32 as int);
        let f = self.magnitude() % (FRAC32 as int);
        if e == 0 {
            f as nat
        } else {
            (f + FRAC32) as nat
        }
    }

    /// Power of two that scales [`Self::mantissa`].
    pub open spec fn exponent(self) -> int {
        let e = self.magnitude() / (FRAC32 as int);
        if e == 0 {
            -149
        } else {
            e - 150
        }
    }

    /// The pattern without its sign bit.
    fn unsigned(self) -> (r: u32)
        ensures
            r == self.magnitude(),
    {
        if self.bits >= SIGN32 {
            self.bits - SIGN32
        } else {
            self.bits
        }
    }

    /// True when the value is neither infinite nor NaN.
    pub fn is_finite(self) -> (r: bool)
        ensures
            r == self.finite(),
    {
        self.unsigned() < INF32
    }

    /// True when the value is strictly greater than zero.
    pub fn is_positive(self) -> (r: bool)
        ensures
            r == self.positive(),
    {
        self.bits != 0 && self.bits <= INF32
    }
}

/// Comparison is a strict order: nothing is below itself, and being below
/// carries over.
pub proof fn less_is_a_strict_order(a: Real64, b: Real64, c: Real64)
    ensures
        !a.less(a),
        a.less(b) && b.less(c) ==> a.less(c),
        a.less(b) ==> !b.less(a),
{
}

/// Two numbers that are not NaN always compare one way or the other.
pub proof fn numbers_are_totally_ordered(a: Real64, b: Real64)
    requires
        !a.nan(),
        !b.nan(),
    ensures
        a.at_most(b) || b.less(a),
        a.at_most(b) <==> !b.less(a),
{
}

/// A truncating cast respects the order of the numbers it is given.
pub proof fn casts_are_monotonic(a: Real64, b: Real64, limit: nat)
    requires
        a.at_most(b),
    ensures
        a.cast_unsigned(limit) <= b.cast_unsigned(limit),
{
    if !a.negative() && !b.negative() && a.finite() && b.finite() {
        lemma_whole_monotonic(a, b);
    }
    if a.magnitude() == 0 {
        lemma_pow2_pos(1074);
        let p = pow2(1074);
        assert(0nat / p == 0) by (nonlinear_arith)
            requires
                p > 0,
        ;
    }
}

/// Rounding finds the integer that a number is near to.
pub proof fn near_numbers_round_to_it(a: Real64, n: nat, limit: nat)
    requires
        a.near(n),
        n <= limit,
    ensures
        a.round_unsigned(limit) == n,
{
    if !a.negative() && a.exponent() < 0 {
        let k = (-a.exponent()) as nat;
        let h = pow2((k - 1) as nat) as int;
        let m = a.mantissa() as int;
        let d = pow2(k) as int;
        lemma_pow2_adds(1, (k - 1) as nat);
        lemma2_to64();
        lemma_pow2_pos(k);
        assert(d == 2 * h);
        assert((m + h) / d == n) by (nonlinear_arith)
            requires
                d > 0,
                n * d < m + h < n * d + d,
        ;
    }
}

/// The integer part grows with the magnitude.
proof fn lemma_whole_monotonic(a: Real64, b: Real64)
    requires
        a.finite(),
        b.finite(),
        a.magnitude() <= b.magnitude(),
    ensures
        a.whole() <= b.whole(),
{
    let ma = a.mantissa();
    let mb = b.mantissa();
    let ea = a.exponent();
    let eb = b.exponent();
    assert(ea <= eb);
    if ea == eb {
        assert(ma <= mb);
        lemma_scaled_monotonic(ma, mb, ea);
    } else {
        // One exponent step doubles the scale, and the larger number has its
        // hidden bit set, so `ma * 2^ea <= mb * 2^(ea + 1) <= mb * 2^eb`.
        assert(ma < 2 * FRAC64);
        assert(mb >= FRAC64);
        lemma_scaled_monotonic(ma, 2 * mb, ea);
        lemma_scaled_shift(mb, ea, (eb - ea) as nat);
    }
}

proof fn lemma_scaled_monotonic(x: nat, y: nat, e: int)
    requires
        x <= y,
    ensures
        scaled_whole(x, e) <= scaled_whole(y, e),
{
    if e >= 0 {
        let p = pow2(e as nat);
        assert(x * p <= y * p) by (nonlinear_arith)
            requires
                x <= y,
        ;
    } else {
        let p = pow2((-e) as nat);
        lemma_pow2_pos((-e) as nat);
        vstd::arithmetic::div_mod::lemma_div_is_ordered(x as int, y as int, p as int);
    }
}

/// Raising the exponent by `d >= 1` at least doubles the scaled value.
proof fn lemma_scaled_shift(y: nat, e: int, d: nat)
    requires
        d >= 1,
    ensures
        scaled_whole(2 * y, e) <= scaled_whole(y, e + d),
    decreases d,
{
    if d > 1 {
        lemma_scaled_shift(y, e, (d - 1) as nat);
        lemma_scaled_monotonic(y, 2 * y, e + d - 1);
        lemma_scaled_shift(y, e + d - 1, 1);
    } else if e >= 0 {
        lemma_pow2_adds(1, e as nat);
        lemma2_to64();
        let p = pow2(e as nat);
        assert((2 * y) * p == y * (2 * p)) by (nonlinear_arith);
    } else if e == -1 {
        lemma2_to64();
        assert(scaled_whole(y, 0) == y * 1);
        assert((2 * y) / 2 == y);
    } else {
        let k = (-e - 1) as nat;
        lemma_pow2_adds(1, k);
        lemma2_to64();
        lemma_pow2_pos(k);
        let p = pow2(k);
        assert(pow2((-e) as nat) == 2 * p);
        vstd::arithmetic::div_mod::lemma_div_denominator((2 * y) as int, 2, p as int);
        assert((2 * y) / 2 == y);
    }
}

/// A truncating cast takes the fraction off: a number that is not negative lies at
/// its cast or less than one above it, up to where the cast saturates.
pub proof fn casts_take_the_fraction_off(a: Real64, limit: nat)
    requires
        a.finite(),
        !a.negative(),
    ensures
        ({
            let w = a.cast_unsigned(limit) as int;
            let m = a.mantissa() as int;
            let e = a.exponent();
            let d = pow2((-e) as nat) as int;
            &&& 0 <= w <= limit
            &&& e >= 0 ==> w == m * pow2(e as nat) || w == limit && m * pow2(e as nat) > limit
            &&& e < 0 ==> w * d <= m && (w < limit ==> m < w * d + d)
        }),
{
    let m = a.mantissa() as int;
    let e = a.exponent();
    if e < 0 {
        let d = pow2((-e) as nat) as int;
        lemma_pow2_pos((-e) as nat);
        let q = m / d;
        vstd::arithmetic::div_mod::lemma_fundamental_div_mod(m, d);
        vstd::arithmetic::div_mod::lemma_mod_bound(m, d);
        vstd::arithmetic::mul::lemma_mul_is_commutative(d, q);
        let w = a.cast_unsigned(limit) as int;
        assert(w * d <= q * d) by (nonlinear_arith)
            requires
                w <= q,
                d > 0,
        ;
    }
}

/// Rounding finds the nearest integer: a number that is not negative lies at most
/// half away from it, and exactly half only below it, up to where it saturates.
pub proof fn rounding_finds_the_nearest(a: Real64, limit: nat)
    requires
        a.finite(),
        !a.negative(),
    ensures
        ({
            let w = a.round_unsigned(limit) as int;
            let m = a.mantissa() as int;
            let e = a.exponent();
            let d = pow2((-e) as nat) as int;
            &&& 0 <= w <= limit
            &&& e >= 0 ==> w == m * pow2(e as nat) || w == limit && m * pow2(e as nat) > limit
            &&& e < 0 ==> 2 * (w * d) - d <= 2 * m && (w < limit ==> 2 * m < 2 * (w * d) + d)
        }),
{
    let m = a.mantissa() as int;
    let e = a.exponent();
    if e < 0 {
        let k = (-e) as nat;
        let h = pow2((k - 1) as nat) as int;
        let d = pow2(k) as int;
        lemma_pow2_adds(1, (k - 1) as nat);
        lemma2_to64();
        lemma_pow2_pos(k);
        let q = (m + h) / d;
        vstd::arithmetic::div_mod::lemma_fundamental_div_mod(m + h, d);
        vstd::arithmetic::div_mod::lemma_mod_bound(m + h, d);
        vstd::arithmetic::mul::lemma_mul_is_commutative(d, q);
        let w = a.round_unsigned(limit) as int;
        assert(w * d <= q * d) by (nonlinear_arith)
            requires
                w <= q,
                d > 0,
        ;
    }
}

/// Rounding to a signed integer treats both signs alike, and NaN and negative
/// numbers cast to an unsigned one are zero.
pub proof fn signs_are_treated_alike(a: Real64, limit: nat)
    ensures
        a.nan() ==> a.round_signed() == 0 && a.cast_unsigned(limit) == 0 && a.round_unsigned(limit)
            == 0,
        a.negative() ==> a.cast_unsigned(limit) == 0 && a.round_unsigned(limit) == 0,
        !a.nan() && !a.negative() ==> a.round_signed() == a.round_unsigned(i64::MAX as nat),
        !a.nan() && a.negative() && a.finite() && a.nearest() <= i64::MAX ==> a.round_signed()
            == -(a.nearest() as int),
        !a.nan() && !a.finite() && !a.negative() ==> a.cast_unsigned(limit) == limit,
        a.negation().negation() == a,
        a.negation().negative() == !a.negative(),
        a.negation().absolute() == a.absolute(),
        !a.absolute().negative(),
        !a.negative() ==> a.absolute() == a,
        a.negative() ==> a.absolute() == a.negation(),
        a.nan() == a.negation().nan(),
{
}

/// Clamping keeps what is between the bounds, and moves what is beyond one of them
/// to it.
pub proof fn clamping_keeps_within_the_bounds(a: Real64, lo: Real64, hi: Real64)
    requires
        !a.nan(),
        lo.at_most(hi),
    ensures
        lo.at_most(a.clamped(lo, hi)),
        a.clamped(lo, hi).at_most(hi),
        lo.at_most(a) && a.at_most(hi) ==> a.clamped(lo, hi) == a,
        a.less(lo) ==> a.clamped(lo, hi) == lo,
        hi.less(a) ==> a.clamped(lo, hi) == hi,
        lo.at_most(a.raised(lo)),
        lo.less(a) ==> a.raised(lo) == a,
        !lo.less(a) ==> a.raised(lo) == lo,
{
}

} // verus!

//! Numbers and fragments rendered as text.

use vstd::prelude::*;

verus! {

/// The character of a hexadecimal digit, lower case.
pub open spec fn digit_char(d: nat) -> char {
    if d < 10 {
        ('0' as nat + d) as char
    } else {
        ('a' as nat + d - 10) as char
    }
}

/// `n` written in `base` without leading zeros; zero is a single `0`.
pub open spec fn numeral(n: nat, base: nat) -> Seq<char>
    decreases n,
{
    if base < 2 || n < base {
        seq![digit_char(n)]
    } else {
        proof {
            assert(n / base < n) by (nonlinear_arith)
                requires
                    n >= base,
                    base >= 2,
            ;
        }
        numeral(n / base, base).push(digit_char(n % base))
    }
}

/// `n` written in decimal.
pub open spec fn decimal(n: nat) -> Seq<char> {
    numeral(n, 10)
}

/// The digit `d` as a one-character string.
fn digit_str(d: u64) -> (r: &'static str)
    requires
        d < 16,
    ensures
        r@ == seq![digit_char(d as nat)],
{
    proof {
        reveal_strlit("0");
        reveal_strlit("1");
        reveal_strlit("2");
        reveal_strlit("3");
        reveal_strlit("4");
        reveal_strlit("5");
        reveal_strlit("6");
        reveal_strlit("7");
        reveal_strlit("8");
        reveal_strlit("9");
        reveal_strlit("a");
        reveal_strlit("b");
        reveal_strlit("c");
        reveal_strlit("d");
        reveal_strlit("e");
        reveal_strlit("f");
    }
    if d == 0 {
        "0"
    } else if d == 1 {
        "1"
    } else if d == 2 {
        "2"
    } else if d == 3 {
        "3"
    } else if d == 4 {
        "4"
    } else if d == 5 {
        "5"
    } else if d == 6 {
        "6"
    } else if d == 7 {
        "7"
    } else if d == 8 {
        "8"
    } else if d == 9 {
        "9"
    } else if d == 10 {
        "a"
    } else if d == 11 {
        "b"
    } else if d == 12 {
        "c"
    } else if d == 13 {
        "d"
    } else if d == 14 {
        "e"
    } else {
        "f"
    }
}

/// Append `n` written in `base`.
fn push_numeral(out: &mut String, n: u64, base: u64)
    requires
        2 <= base <= 16,
    ensures
        final(out)@ == old(out)@ + numeral(n as nat, base as nat),
    decreases n,
{
    if n < base {
        out.append(digit_str(n));
    } else {
        proof {
            assert(n / base < n) by (nonlinear_arith)
                requires
                    n >= base,
                    base >= 2,
            ;
        }
        push_numeral(out, n / base, base);
        out.append(digit_str(n % base));
        assert(out@ =~= old(out)@ + numeral(n as nat, base as nat));
    }
}

/// Append `n` in decimal.
pub fn push_decimal(out: &mut String, n: u64)
    ensures
        final(out)@ == old(out)@ + decimal(n as nat),
{
    push_numeral(out, n, 10);
}

/// Append `n` in lower-case hexadecimal.
pub fn push_hex(out: &mut String, n: u64)
    ensures
        final(out)@ == old(out)@ + numeral(n as nat, 16),
{
    push_numeral(out, n, 16);
}

/// The number that a digit stands for.
pub open spec fn digit_value(c: char) -> int {
    if '0' <= c <= '9' {
        c as int - '0' as int
    } else {
        c as int - 'a' as int + 10
    }
}

/// The number that digits stand for, the most significant one first.
pub open spec fn value_of(digits: Seq<char>, base: nat) -> int
    decreases digits.len(),
{
    if digits.len() == 0 {
        0
    } else {
        value_of(digits.drop_last(), base) * base + digit_value(digits.last())
    }
}

/// Numerals read back as the number that was written, and start with a zero only
/// where that is the number.
pub proof fn numerals_read_back(n: nat, base: nat)
    requires
        2 <= base <= 16,
    ensures
        value_of(numeral(n, base), base) == n,
        numeral(n, base).len() >= 1,
        numeral(n, base)[0] == '0' ==> n == 0,
    decreases n,
{
    let s = numeral(n, base);
    if n < base {
        assert(s.drop_last() =~= Seq::empty());
        assert(value_of(s.drop_last(), base) == 0);
        assert(0 * base == 0) by (nonlinear_arith);
    } else {
        let q = n / base;
        assert(q < n && q > 0) by (nonlinear_arith)
            requires
                q == n / base,
                n >= base,
                base >= 2,
        ;
        numerals_read_back(q, base);
        assert(s.drop_last() =~= numeral(q, base));
        vstd::arithmetic::div_mod::lemma_fundamental_div_mod(n as int, base as int);
        vstd::arithmetic::mul::lemma_mul_is_commutative(base as int, q as int);
        vstd::arithmetic::div_mod::lemma_mod_bound(n as int, base as int);
        assert(s[0] == numeral(q, base)[0]);
    }
}

} // verus!

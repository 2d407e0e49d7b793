//! Radix-2 Cooley-Tukey transform, used for spectral measurement.
//!
//! The contract is the recursive definition: the transform of a sequence joins
//! the transforms of its even and odd elements. The code is the in-place
//! iterative form, a bit-reversal permutation followed by passes that double the
//! length of the sub-transforms.

use vstd::prelude::*;
use crate::ieee::Real64;
use super::fir::ONE_BITS;

verus! {

/// A complex number in double precision.
#[derive(Clone, Copy, Debug, PartialEq, Eq, Structural)]
pub struct Complex {
    /// Real part.
    pub re: Real64,
    /// Imaginary part.
    pub im: Real64,
}

/// Floating-point arithmetic of the transform.
pub trait FftMath {
    /// `e^(-j 2 PI / len)`.
    fn rotation(&self, len: usize) -> Complex;

    /// `a * b`.
    fn complex_product(&self, a: Complex, b: Complex) -> Complex;

    /// `a + b`.
    fn complex_sum(&self, a: Complex, b: Complex) -> Complex;

    /// `a - b`.
    fn complex_difference(&self, a: Complex, b: Complex) -> Complex;
}

/// `w` is what `m` gives for one step of a transform of length `len`.
pub open spec fn rotation_gives<M: FftMath>(m: M, len: usize, w: Complex) -> bool {
    call_ensures(M::rotation, (&m, len), w)
}

/// `p` is what `m` gives for `a * b`.
pub open spec fn product_gives<M: FftMath>(m: M, a: Complex, b: Complex, p: Complex) -> bool {
    call_ensures(M::complex_product, (&m, a, b), p)
}

/// `up` and `down` are what `m` gives for `a + t * b` and `a - t * b`.
pub open spec fn butterfly<M: FftMath>(
    m: M,
    a: Complex,
    b: Complex,
    t: Complex,
    up: Complex,
    down: Complex,
) -> bool {
    exists|p: Complex| #[trigger]
        product_gives(m, b, t, p) && call_ensures(M::complex_sum, (&m, a, p), up) && call_ensures(
            M::complex_difference,
            (&m, a, p),
            down,
        )
}

/// `ts` are the powers of `w`, from one on.
pub open spec fn twiddles<M: FftMath>(m: M, w: Complex, ts: Seq<Complex>) -> bool {
    &&& ts.len() > 0 ==> ts[0] == (Complex {
        re: Real64 { bits: ONE_BITS },
        im: Real64 { bits: 0 },
    })
    &&& forall|k: int| 0 <= k < ts.len() - 1 ==> #[trigger] product_gives(m, ts[k], w, ts[k + 1])
}

/// `ys` joins the transforms `e` of the even and `o` of the odd elements, with
/// `ts` as the twiddle factors.
pub open spec fn joins_with<M: FftMath>(
    m: M,
    e: Seq<Complex>,
    o: Seq<Complex>,
    ts: Seq<Complex>,
    ys: Seq<Complex>,
) -> bool {
    &&& o.len() == e.len()
    &&& ts.len() == e.len()
    &&& ys.len() == 2 * e.len()
    &&& forall|k: int|
        0 <= k < e.len() ==> #[trigger] butterfly(m, e[k], o[k], ts[k], ys[k], ys[k + e.len()])
}

/// `ys` joins the transforms `e` of the even and `o` of the odd elements.
pub open spec fn joins<M: FftMath>(m: M, e: Seq<Complex>, o: Seq<Complex>, ys: Seq<Complex>) -> bool {
    exists|w: Complex, ts: Seq<Complex>|
        #![trigger twiddles(m, w, ts)]
        rotation_gives(m, (2 * e.len()) as usize, w) && twiddles(m, w, ts) && joins_with(
            m,
            e,
            o,
            ts,
            ys,
        )
}

/// `n` is a power of two.
pub open spec fn is_power_of_two(n: nat) -> bool
    decreases n,
{
    n == 1 || (n > 1 && n % 2 == 0 && is_power_of_two(n / 2))
}

/// The elements at even places.
pub open spec fn evens(xs: Seq<Complex>) -> Seq<Complex> {
    Seq::new(xs.len() / 2, |k: int| xs[2 * k])
}

/// The elements at odd places.
pub open spec fn odds(xs: Seq<Complex>) -> Seq<Complex> {
    Seq::new(xs.len() / 2, |k: int| xs[2 * k + 1])
}

/// `ys` is the forward transform of `xs`, whose length is a power of two: a
/// single element is its own transform, and a longer sequence joins the
/// transforms of its even and odd elements.
pub open spec fn is_fft<M: FftMath>(m: M, xs: Seq<Complex>, ys: Seq<Complex>) -> bool
    decreases xs.len(),
{
    if xs.len() <= 1 {
        ys == xs
    } else {
        exists|e: Seq<Complex>, o: Seq<Complex>| #[trigger]
            joins(m, e, o, ys) && e.len() == xs.len() / 2 && is_fft(m, evens(xs), e) && is_fft(
                m,
                odds(xs),
                o,
            )
    }
}

/// `ys` is the transform of the sequence whose bit-reversed order is `ps`.
spec fn is_fft_of_reversed<M: FftMath>(m: M, ps: Seq<Complex>, ys: Seq<Complex>) -> bool
    decreases ps.len(),
{
    if ps.len() <= 1 {
        ys == ps
    } else {
        let half = (ps.len() / 2) as int;
        exists|e: Seq<Complex>, o: Seq<Complex>| #[trigger]
            joins(m, e, o, ys) && e.len() == half && is_fft_of_reversed(m, ps.take(half), e)
                && is_fft_of_reversed(m, ps.skip(half), o)
    }
}

/// Place `i` of `n` with the bits of its index reversed.
pub open spec fn reversed(i: int, n: nat) -> int
    decreases n,
{
    let half = (n / 2) as int;
    if n <= 1 {
        0
    } else if i < half {
        2 * reversed(i, n / 2)
    } else {
        2 * reversed(i - half, n / 2) + 1
    }
}

/// The sequence in bit-reversed order.
pub open spec fn permuted(xs: Seq<Complex>) -> Seq<Complex> {
    Seq::new(xs.len(), |k: int| xs[reversed(k, xs.len())])
}

proof fn lemma_reversed_bound(i: int, n: nat)
    requires
        is_power_of_two(n),
        0 <= i < n,
    ensures
        0 <= reversed(i, n) < n,
    decreases n,
{
    if n > 1 {
        let half = (n / 2) as int;
        lemma_reversed_bound(if i < half {
            i
        } else {
            i - half
        }, n / 2);
    }
}

/// The lowest bit of an index becomes the highest.
proof fn lemma_reversed_low(i: int, n: nat)
    requires
        is_power_of_two(n),
        n > 1,
        0 <= i < n,
    ensures
        reversed(i, n) == reversed(i / 2, n / 2) + if i % 2 == 1 {
            (n / 2) as int
        } else {
            0
        },
    decreases n,
{
    reveal_with_fuel(is_power_of_two, 3);
    let half = (n / 2) as int;
    let quarter = (half / 2) as int;
    let h = n / 2;
    if h == 1 {
        assert(reversed(0, 1) == 0);
    } else {
        let low = if i < half {
            i
        } else {
            i - half
        };
        lemma_reversed_low(low, h);
        assert(low % 2 == i % 2);
        assert(half == 2 * quarter);
        if i < half {
            assert(i / 2 < quarter);
        } else {
            assert(i / 2 == low / 2 + quarter);
        }
    }
}

/// Reversing the bits twice changes nothing.
proof fn lemma_reversed_involution(i: int, n: nat)
    requires
        is_power_of_two(n),
        0 <= i < n,
    ensures
        reversed(reversed(i, n), n) == i,
    decreases n,
{
    lemma_reversed_bound(i, n);
    if n > 1 {
        let half = (n / 2) as int;
        let r = reversed(i, n);
        let low = if i < half {
            i
        } else {
            i - half
        };
        lemma_reversed_involution(low, n / 2);
        lemma_reversed_low(r, n);
        assert(r / 2 == reversed(low, n / 2));
    }
}

/// The bit-reversed counter one step on.
spec fn reversed_step(j: int, n: nat) -> int
    decreases n,
{
    let half = (n / 2) as int;
    if n <= 1 {
        j
    } else if j >= half {
        reversed_step(j - half, n / 2)
    } else {
        j + half
    }
}

proof fn lemma_reversed_step(i: int, n: nat)
    requires
        is_power_of_two(n),
        0 <= i < n - 1,
    ensures
        reversed_step(reversed(i, n), n) == reversed(i + 1, n),
    decreases n,
{
    let h = n / 2;
    lemma_reversed_low(i, n);
    lemma_reversed_low(i + 1, n);
    lemma_reversed_bound(i / 2, h);
    if i % 2 == 1 {
        assert((i + 1) / 2 == i / 2 + 1);
        assert((i + 1) % 2 == 0);
        lemma_reversed_step(i / 2, h);
    } else {
        assert((i + 1) / 2 == i / 2);
        assert((i + 1) % 2 == 1);
    }
}

/// Cutting a bit-reversed sequence in half parts the even from the odd elements.
proof fn lemma_permuted_halves(xs: Seq<Complex>)
    requires
        is_power_of_two(xs.len()),
        xs.len() > 1,
    ensures
        permuted(xs).take((xs.len() / 2) as int) == permuted(evens(xs)),
        permuted(xs).skip((xs.len() / 2) as int) == permuted(odds(xs)),
{
    let n = xs.len();
    let half = (n / 2) as int;
    let ps = permuted(xs);
    assert forall|k: int| 0 <= k < half implies ps.take(half)[k] == permuted(evens(xs))[k] && ps.skip(
        half,
    )[k] == permuted(odds(xs))[k] by {
        lemma_reversed_bound(k, n / 2);
    }
    assert(ps.take(half) =~= permuted(evens(xs)));
    assert(ps.skip(half) =~= permuted(odds(xs)));
}

proof fn lemma_reversed_transform<M: FftMath>(m: M, xs: Seq<Complex>, ys: Seq<Complex>)
    requires
        is_power_of_two(xs.len()),
        is_fft_of_reversed(m, permuted(xs), ys),
    ensures
        is_fft(m, xs, ys),
    decreases xs.len(),
{
    let ps = permuted(xs);
    if xs.len() == 1 {
        assert(ps =~= xs);
    } else {
        let half = (ps.len() / 2) as int;
        let (e, o) = choose|e: Seq<Complex>, o: Seq<Complex>| #[trigger]
            joins(m, e, o, ys) && e.len() == half && is_fft_of_reversed(m, ps.take(half), e)
                && is_fft_of_reversed(m, ps.skip(half), o);
        lemma_permuted_halves(xs);
        lemma_reversed_transform(m, evens(xs), e);
        lemma_reversed_transform(m, odds(xs), o);
        assert(joins(m, e, o, ys));
    }
}

/// The complex numbers held in two parallel sequences.
pub open spec fn zipped(re: Seq<Real64>, im: Seq<Real64>) -> Seq<Complex> {
    Seq::new(re.len(), |k: int| Complex { re: re[k], im: im[k] })
}

/// Advance the bit-reversed counter `j` of `n`.
fn advance_reversed(j: usize, n: usize) -> (r: usize)
    requires
        is_power_of_two(n as nat),
        j < n - 1,
    ensures
        r == reversed_step(j as int, n as nat),
{
    proof {
        reveal_with_fuel(is_power_of_two, 3);
    }
    let mut rest: usize = j;
    let mut bit: usize = n / 2;
    while rest >= bit
        invariant
            1 <= bit <= n,
            2 * bit <= n,
            is_power_of_two((2 * bit) as nat),
            rest < 2 * bit - 1,
            reversed_step(rest as int, (2 * bit) as nat) == reversed_step(j as int, n as nat),
        decreases bit,
    {
        proof {
            reveal_with_fuel(is_power_of_two, 3);
        }
        rest = rest - bit;
        bit = bit / 2;
    }
    rest + bit
}

/// Put the elements in bit-reversed order.
fn permute(re: &mut [Real64], im: &mut [Real64])
    requires
        old(re)@.len() == old(im)@.len(),
        is_power_of_two(old(re)@.len()),
        old(re)@.len() > 1,
    ensures
        final(re)@.len() == old(re)@.len(),
        final(im)@.len() == old(im)@.len(),
        zipped(final(re)@, final(im)@) == permuted(zipped(old(re)@, old(im)@)),
{
    let ghost xs = zipped(re@, im@);
    let n: usize = re.len();
    let mut i: usize = 0;
    let mut j: usize = 0;
    proof {
        lemma_reversed_zero(n as nat);
        assert forall|k: int| 0 <= k < n implies #[trigger] zipped(re@, im@)[k] == if k <= 0
            || reversed(k, n as nat) <= 0 {
            xs[reversed(k, n as nat)]
        } else {
            xs[k]
        } by {
            if reversed(k, n as nat) <= 0 {
                lemma_reversed_bound(k, n as nat);
                lemma_reversed_involution(k, n as nat);
            }
        }
    }
    while i < n - 1
        invariant
            n > 1,
            n == re@.len(),
            n == im@.len(),
            n == xs.len(),
            is_power_of_two(n as nat),
            i < n,
            j == reversed(i as int, n as nat),
            forall|k: int|
                0 <= k < n ==> #[trigger] zipped(re@, im@)[k] == if k <= i || reversed(k, n as nat)
                    <= i {
                    xs[reversed(k, n as nat)]
                } else {
                    xs[k]
                },
        decreases n - i,
    {
        proof {
            lemma_reversed_bound(i as int, n as nat);
            lemma_reversed_step(i as int, n as nat);
            lemma_reversed_bound(i + 1, n as nat);
            lemma_reversed_involution(i + 1, n as nat);
            lemma_reversed_last(n as nat);
            if j == n - 1 {
                lemma_reversed_involution(i as int, n as nat);
            }
        }
        i = i + 1;
        j = advance_reversed(j, n);
        let ghost before = zipped(re@, im@);
        if i < j {
            let (ri, rj): (Real64, Real64) = (re[i], re[j]);
            re[i] = rj;
            re[j] = ri;
            let (ii, ij): (Real64, Real64) = (im[i], im[j]);
            im[i] = ij;
            im[j] = ii;
        }
        proof {
            let now = zipped(re@, im@);
            assert forall|k: int| 0 <= k < n implies #[trigger] now[k] == if k <= i || reversed(
                k,
                n as nat,
            ) <= i {
                xs[reversed(k, n as nat)]
            } else {
                xs[k]
            } by {
                lemma_reversed_bound(k, n as nat);
                lemma_reversed_involution(k, n as nat);
                assert(before[k] == if k <= i - 1 || reversed(k, n as nat) <= i - 1 {
                    xs[reversed(k, n as nat)]
                } else {
                    xs[k]
                });
                assert(before[i as int] == if i <= i - 1 || j <= i - 1 {
                    xs[j as int]
                } else {
                    xs[i as int]
                });
                assert(before[j as int] == if j <= i - 1 || i <= i - 1 {
                    xs[i as int]
                } else {
                    xs[j as int]
                });
            }
        }
    }
    assert(zipped(re@, im@) =~= permuted(xs));
}

proof fn lemma_reversed_zero(n: nat)
    requires
        is_power_of_two(n),
    ensures
        reversed(0, n) == 0,
    decreases n,
{
    if n > 1 {
        lemma_reversed_zero(n / 2);
    }
}

proof fn lemma_reversed_last(n: nat)
    requires
        is_power_of_two(n),
    ensures
        reversed(n - 1, n) == n - 1,
    decreases n,
{
    if n > 1 {
        lemma_reversed_last(n / 2);
    }
}

/// Join the transforms in two neighbouring half blocks in place.
fn join_block<M: FftMath>(
    re: &mut [Real64],
    im: &mut [Real64],
    start: usize,
    half: usize,
    w: Complex,
    m: &M,
)
    requires
        old(re)@.len() == old(im)@.len(),
        half >= 1,
        start + 2 * half <= old(re)@.len(),
        rotation_gives(*m, (2 * half) as usize, w),
    ensures
        final(re)@.len() == old(re)@.len(),
        final(im)@.len() == old(im)@.len(),
        ({
            let before = zipped(old(re)@, old(im)@);
            let after = zipped(final(re)@, final(im)@);
            &&& joins(
                *m,
                before.subrange(start as int, start + half),
                before.subrange(start + half, start + 2 * half),
                after.subrange(start as int, start + 2 * half),
            )
            &&& forall|k: int|
                0 <= k < after.len() && !(start <= k < start + 2 * half) ==> #[trigger] after[k]
                    == before[k]
        }),
{
    let ghost before = zipped(re@, im@);
    let len: usize = re.len();
    let ghost e = before.subrange(start as int, start + half);
    let ghost o = before.subrange(start + half, start + 2 * half);
    let mut cur = Complex { re: Real64 { bits: ONE_BITS }, im: Real64 { bits: 0 } };
    let ghost mut ts: Seq<Complex> = seq![cur];
    let mut k: usize = 0;
    while k < half
        invariant
            k <= half,
            half >= 1,
            len == re@.len(),
            len == im@.len(),
            len == before.len(),
            start + 2 * half <= len,
            e == before.subrange(start as int, start + half),
            o == before.subrange(start + half, start + 2 * half),
            ts.len() == k + 1,
            ts.last() == cur,
            twiddles(*m, w, ts),
            forall|j: int|
                0 <= j < k ==> #[trigger] butterfly(
                    *m,
                    e[j],
                    o[j],
                    ts[j],
                    zipped(re@, im@)[start + j],
                    zipped(re@, im@)[start + j + half],
                ),
            forall|j: int|
                0 <= j < len && !(start <= j < start + k) && !(start + half <= j < start + half + k)
                    ==> #[trigger] zipped(re@, im@)[j] == before[j],
        decreases half - k,
    {
        let lo: usize = start + k;
        let hi: usize = start + k + half;
        let ghost mid = zipped(re@, im@);
        let a = Complex { re: re[lo], im: im[lo] };
        let b = Complex { re: re[hi], im: im[hi] };
        proof {
            assert(mid[lo as int] == before[lo as int]);
            assert(mid[hi as int] == before[hi as int]);
            assert(a == e[k as int]);
            assert(b == o[k as int]);
        }
        let p = m.complex_product(b, cur);
        let down = m.complex_difference(a, p);
        let up = m.complex_sum(a, p);
        assert(product_gives(*m, b, cur, p));
        assert(butterfly(*m, a, b, cur, up, down));
        re[hi] = down.re;
        im[hi] = down.im;
        re[lo] = up.re;
        im[lo] = up.im;
        let next = m.complex_product(cur, w);
        proof {
            let now = zipped(re@, im@);
            assert(now[lo as int] == up);
            assert(now[hi as int] == down);
            assert(product_gives(*m, cur, w, next));
            let grown = ts.push(next);
            assert forall|j: int| 0 <= j < grown.len() - 1 implies #[trigger] product_gives(
                *m,
                grown[j],
                w,
                grown[j + 1],
            ) by {
                if j < k {
                    assert(product_gives(*m, ts[j], w, ts[j + 1]));
                }
            }
            assert forall|j: int| 0 <= j < k + 1 implies #[trigger] butterfly(
                *m,
                e[j],
                o[j],
                grown[j],
                now[start + j],
                now[start + j + half],
            ) by {
                if j < k {
                    assert(butterfly(
                        *m,
                        e[j],
                        o[j],
                        ts[j],
                        mid[start + j],
                        mid[start + j + half],
                    ));
                    assert(now[start + j] == mid[start + j]);
                    assert(now[start + j + half] == mid[start + j + half]);
                }
            }
            assert forall|j: int|
                0 <= j < len && !(start <= j < start + k + 1) && !(start + half <= j < start + half
                    + k + 1) implies #[trigger] now[j] == before[j] by {
                assert(mid[j] == before[j]);
            }
            ts = grown;
        }
        cur = next;
        k = k + 1;
    }
    proof {
        let now = zipped(re@, im@);
        let used = ts.take(half as int);
        let ys = now.subrange(start as int, start + 2 * half);
        assert forall|j: int| 0 <= j < used.len() - 1 implies #[trigger] product_gives(
            *m,
            used[j],
            w,
            used[j + 1],
        ) by {
            assert(product_gives(*m, ts[j], w, ts[j + 1]));
        }
        assert forall|j: int| 0 <= j < e.len() implies #[trigger] butterfly(
            *m,
            e[j],
            o[j],
            used[j],
            ys[j],
            ys[j + e.len()],
        ) by {
            assert(butterfly(*m, e[j], o[j], ts[j], now[start + j], now[start + j + half]));
            assert(ys[j] == now[start + j]);
            assert(ys[j + half] == now[start + j + half]);
        }
        assert(twiddles(*m, w, used));
        assert(joins_with(*m, e, o, used, ys));
        assert(joins(*m, e, o, ys));
    }
}

/// Block `b` of length `h` holds its transform.
spec fn block_done<M: FftMath>(m: M, ps: Seq<Complex>, cs: Seq<Complex>, b: int, h: int) -> bool {
    is_fft_of_reversed(m, ps.subrange(b * h, b * h + h), cs.subrange(b * h, b * h + h))
}

proof fn lemma_block_bounds(b: int, h: int, q: int, n: int)
    requires
        0 <= b < q,
        h >= 1,
        q * h == n,
    ensures
        0 <= b * h,
        b * h + h <= n,
{
    assert(0 <= b * h && b * h + h <= q * h) by (nonlinear_arith)
        requires
            0 <= b < q,
            h >= 1,
    ;
}

/// One pass: join all pairs of neighbouring blocks of length `half`.
fn pass<M: FftMath>(
    re: &mut [Real64],
    im: &mut [Real64],
    half: usize,
    count: usize,
    m: &M,
    Ghost(ps): Ghost<Seq<Complex>>,
)
    requires
        old(re)@.len() == old(im)@.len(),
        ps.len() == old(re)@.len(),
        half >= 1,
        count * (2 * half) == ps.len(),
        count >= 1,
        2 * half <= ps.len(),
        forall|b: int|
            0 <= b < 2 * count ==> #[trigger] block_done(
                *m,
                ps,
                zipped(old(re)@, old(im)@),
                b,
                half as int,
            ),
    ensures
        final(re)@.len() == old(re)@.len(),
        final(im)@.len() == old(im)@.len(),
        forall|b: int|
            0 <= b < count ==> #[trigger] block_done(
                *m,
                ps,
                zipped(final(re)@, final(im)@),
                b,
                2 * half,
            ),
{
    let n: usize = re.len();
    let len: usize = 2 * half;
    let w = m.rotation(len);
    assert(rotation_gives(*m, len, w));
    let mut c: usize = 0;
    let mut start: usize = 0;
    while c < count
        invariant
            n == re@.len(),
            n == im@.len(),
            n == ps.len(),
            half >= 1,
            len == 2 * half,
            count * len == n,
            c <= count,
            start == c * len,
            rotation_gives(*m, len, w),
            forall|b: int|
                0 <= b < c ==> #[trigger] block_done(*m, ps, zipped(re@, im@), b, len as int),
            forall|b: int|
                2 * c <= b < 2 * count ==> #[trigger] block_done(
                    *m,
                    ps,
                    zipped(re@, im@),
                    b,
                    half as int,
                ),
        decreases count - c,
    {
        let ghost before = zipped(re@, im@);
        proof {
            lemma_block_bounds(c as int, len as int, count as int, n as int);
        }
        join_block(re, im, start, half, w, m);
        proof {
            let now = zipped(re@, im@);
            let h = half as int;
            let l = len as int;
            let s = start as int;
            assert(block_done(*m, ps, before, 2 * c, h));
            assert(block_done(*m, ps, before, 2 * c + 1, h));
            assert((2 * c) * h == s && (2 * c + 1) * h == s + h) by (nonlinear_arith)
                requires
                    s == c * (2 * h),
            ;
            let p = ps.subrange(s, s + l);
            assert(p.take(h) =~= ps.subrange(s, s + h));
            assert(p.skip(h) =~= ps.subrange(s + h, s + h + h));
            let e = before.subrange(s, s + h);
            let o = before.subrange(s + h, s + l);
            assert(joins(*m, e, o, now.subrange(s, s + l)));
            assert(is_fft_of_reversed(*m, p, now.subrange(s, s + l)));
            assert(block_done(*m, ps, now, c as int, l));
            assert forall|b: int| 0 <= b < c + 1 implies #[trigger] block_done(*m, ps, now, b, l) by {
                if b < c {
                    assert(block_done(*m, ps, before, b, l));
                    lemma_block_bounds(b, l, c as int, s);
                    assert(now.subrange(b * l, b * l + l) =~= before.subrange(b * l, b * l + l));
                }
            }
            assert forall|b: int| 2 * (c + 1) <= b < 2 * count implies #[trigger] block_done(
                *m,
                ps,
                now,
                b,
                h,
            ) by {
                assert(block_done(*m, ps, before, b, h));
                assert(s + l <= b * h && b * h + h <= n) by (nonlinear_arith)
                    requires
                        2 * (c + 1) <= b < 2 * count,
                        s == c * (2 * h),
                        l == 2 * h,
                        count * (2 * h) == n,
                        h >= 1,
                ;
                assert(now.subrange(b * h, b * h + h) =~= before.subrange(b * h, b * h + h));
            }
            assert((c + 1) * l == s + l) by (nonlinear_arith)
                requires
                    s == c * l,
            ;
        }
        start = start + len;
        c = c + 1;
    }
}

/// Forward transform in place.
///
/// Both slices have the same length, which is zero or a power of two; lengths
/// below two are left alone.
pub fn fft_in_place<M: FftMath>(re: &mut [Real64], im: &mut [Real64], m: &M)
    requires
        old(re)@.len() == old(im)@.len(),
        old(re)@.len() == 0 || is_power_of_two(old(re)@.len()),
    ensures
        final(re)@.len() == old(re)@.len(),
        final(im)@.len() == old(im)@.len(),
        is_fft(*m, zipped(old(re)@, old(im)@), zipped(final(re)@, final(im)@)),
{
    let ghost xs = zipped(re@, im@);
    let n: usize = re.len();
    if n <= 1 {
        return;
    }
    permute(re, im);
    let ghost ps = permuted(xs);
    let mut half: usize = 1;
    let mut blocks: usize = n;
    proof {
        assert forall|b: int| 0 <= b < n implies #[trigger] block_done(
            *m,
            ps,
            zipped(re@, im@),
            b,
            1,
        ) by {
            assert(b * 1 == b);
        }
    }
    while blocks > 1
        invariant
            n == re@.len(),
            n == im@.len(),
            n == ps.len(),
            n > 1,
            half >= 1,
            blocks >= 1,
            blocks * half == n,
            is_power_of_two(blocks as nat),
            forall|b: int|
                0 <= b < blocks ==> #[trigger] block_done(
                    *m,
                    ps,
                    zipped(re@, im@),
                    b,
                    half as int,
                ),
        decreases blocks,
    {
        let count: usize = blocks / 2;
        proof {
            assert(count * (2 * half) == n && 2 * half <= n) by (nonlinear_arith)
                requires
                    blocks * half == n,
                    blocks == 2 * count,
                    count >= 1,
            ;
        }
        pass(re, im, half, count, m, Ghost(ps));
        half = 2 * half;
        blocks = count;
    }
    proof {
        let cs = zipped(re@, im@);
        assert(block_done(*m, ps, cs, 0, half as int));
        assert(half == n) by (nonlinear_arith)
            requires
                blocks * half == n,
                blocks == 1,
        ;
        assert(0 * (n as int) == 0);
        assert(ps.subrange(0, n as int) =~= ps);
        assert(cs.subrange(0, n as int) =~= cs);
        lemma_reversed_transform(*m, xs, cs);
    }
}

/// A transform is as long as what it transforms.
pub proof fn lemma_fft_len<M: FftMath>(m: M, xs: Seq<Complex>, ys: Seq<Complex>)
    requires
        is_fft(m, xs, ys),
        is_power_of_two(xs.len()),
    ensures
        ys.len() == xs.len(),
{
    if xs.len() > 1 {
        let (e, o) = choose|e: Seq<Complex>, o: Seq<Complex>| #[trigger]
            joins(m, e, o, ys) && e.len() == xs.len() / 2 && is_fft(m, evens(xs), e) && is_fft(
                m,
                odds(xs),
                o,
            );
        let (w, ts) = choose|w: Complex, ts: Seq<Complex>|
            #![trigger twiddles(m, w, ts)]
            rotation_gives(m, (2 * e.len()) as usize, w) && twiddles(m, w, ts) && joins_with(
                m,
                e,
                o,
                ts,
                ys,
            );
    }
}

} // verus!

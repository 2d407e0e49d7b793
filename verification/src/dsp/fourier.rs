//! The transform as a sum.
//!
//! The forward transform of `x` is `X[k] = sum_n x[n] e^(-j 2 PI k n / N)`. The
//! recursion that [`super::fft`] follows amounts to this sum wherever none of the
//! operations that it applies rounds.

use vstd::prelude::*;
#[allow(unused_imports)]
use crate::algebra::Ring;
use crate::ieee::Real64;
use super::fft::{Complex, FftMath};
#[allow(unused_imports)]
use super::fft::{butterfly, evens, is_fft, is_power_of_two, joins, joins_with, odds, product_gives, rotation_gives};
#[allow(unused_imports)]
use super::fft::twiddles;
#[allow(unused_imports)]
use super::fir::ONE_BITS;

verus! {

/// `sum_n x[n] w^(k n)` over the first `n` elements.
pub open spec fn fourier_sum<T>(ring: Ring<T>, xs: Seq<T>, w: T, k: nat, n: nat) -> T
    decreases n,
{
    if n == 0 {
        ring.zero
    } else {
        ring.sum(
            fourier_sum(ring, xs, w, k, (n - 1) as nat),
            ring.product(xs[n - 1], ring.power(w, k * (n - 1) as nat)),
        )
    }
}

/// `root(n)` stands for `e^(-j 2 PI / n)`: half a turn is minus one, and twice the
/// step of `2 * n` is the step of `n`.
pub open spec fn are_roots<T>(ring: Ring<T>, root: spec_fn(nat) -> T) -> bool {
    &&& root(1) == ring.one
    &&& root(2) == ring.negated(ring.one)
    &&& forall|n: nat| is_power_of_two(n) ==> #[trigger] root(n) == ring.power(root(2 * n), 2)
}

/// No operation rounds that joins the transforms `e` and `o`: each gives the value
/// that it stands for.
pub open spec fn joins_exactly<M: FftMath, T>(
    m: M,
    ring: Ring<T>,
    val: spec_fn(Complex) -> T,
    root: spec_fn(nat) -> T,
    e: Seq<Complex>,
    o: Seq<Complex>,
) -> bool {
    forall|w: Complex, ts: Seq<Complex>|
        #![trigger twiddles(m, w, ts)]
        rotation_gives(m, (2 * e.len()) as usize, w) && twiddles(m, w, ts) && ts.len() == e.len()
            ==> {
            &&& val(w) == root(2 * e.len())
            &&& forall|k: int|
                0 <= k < ts.len() - 1 ==> val(#[trigger] ts[k + 1]) == ring.product(val(ts[k]), val(w))
            &&& forall|k: int, p: Complex|
                0 <= k < ts.len() && #[trigger] product_gives(m, o[k], ts[k], p) ==> {
                    &&& val(p) == ring.product(val(o[k]), val(ts[k]))
                    &&& forall|up: Complex| #[trigger]
                        call_ensures(M::complex_sum, (&m, e[k], p), up) ==> val(up) == ring.sum(
                            val(e[k]),
                            val(p),
                        )
                    &&& forall|down: Complex| #[trigger]
                        call_ensures(M::complex_difference, (&m, e[k], p), down) ==> val(down)
                            == ring.difference(val(e[k]), val(p))
                }
        }
}

/// No operation rounds that the transform of `xs` applies.
pub open spec fn is_exact_for<M: FftMath, T>(
    m: M,
    ring: Ring<T>,
    val: spec_fn(Complex) -> T,
    root: spec_fn(nat) -> T,
    xs: Seq<Complex>,
) -> bool
    decreases xs.len(),
{
    xs.len() > 1 ==> {
        &&& val(Complex { re: Real64 { bits: ONE_BITS }, im: Real64 { bits: 0 } }) == ring.one
        &&& is_exact_for(m, ring, val, root, evens(xs))
        &&& is_exact_for(m, ring, val, root, odds(xs))
        &&& forall|e: Seq<Complex>, o: Seq<Complex>|
            #![trigger is_fft(m, evens(xs), e), is_fft(m, odds(xs), o)]
            is_fft(m, evens(xs), e) && is_fft(m, odds(xs), o) ==> joins_exactly(m, ring, val, root, e, o)
    }
}

/// A whole turn is one, and half a turn is minus one.
proof fn lemma_turns<T>(ring: Ring<T>, root: spec_fn(nat) -> T, h: nat)
    requires
        ring.is_commutative_ring(),
        are_roots(ring, root),
        is_power_of_two(h),
    ensures
        ring.power(root(h), h) == ring.one,
        ring.power(root(2 * h), h) == ring.negated(ring.one),
    decreases h,
{
    let w = root(2 * h);
    if h == 1 {
        assert(ring.power(w, 0) == ring.one);
        assert(ring.power(root(1), 0) == ring.one);
        assert(ring.power(w, 1) == ring.product(ring.one, w));
        assert(ring.power(root(1), 1) == ring.product(ring.one, ring.one));
        ring.lemma_product_swaps(ring.one, w);
        ring.lemma_product_swaps(w, ring.one);
        ring.lemma_product_swaps(ring.one, ring.one);
    } else {
        let g = h / 2;
        lemma_turns(ring, root, g);
        assert(2 * g == h);
        assert(root(h) == ring.power(w, 2));
        assert(root(g) == ring.power(root(h), 2));
        ring.lemma_power_multiplies(root(h), 2, g);
        ring.lemma_power_multiplies(w, 2, g);
    }
}

/// Even and odd elements contribute apart: the sum over `2 * j` elements is the
/// sum over the even ones and, turned by `w^k`, that over the odd ones.
proof fn lemma_sum_splits<T>(ring: Ring<T>, xs: Seq<T>, ev: Seq<T>, od: Seq<T>, w: T, k: nat, j: nat)
    requires
        ring.is_commutative_ring(),
        2 * j <= xs.len(),
        forall|i: int| 0 <= i < j ==> #[trigger] ev[i] == xs[2 * i] && od[i] == xs[2 * i + 1],
    ensures
        fourier_sum(ring, xs, w, k, 2 * j) == ring.sum(
            fourier_sum(ring, ev, ring.power(w, 2), k, j),
            ring.product(ring.power(w, k), fourier_sum(ring, od, ring.power(w, 2), k, j)),
        ),
    decreases j,
{
    let v = ring.power(w, 2);
    let t = ring.power(w, k);
    if j == 0 {
        ring.lemma_zero_product(t);
        ring.lemma_sum_neutral(ring.zero);
    } else {
        let i = (j - 1) as nat;
        lemma_sum_splits(ring, xs, ev, od, w, k, i);
        let a = fourier_sum(ring, ev, v, k, i);
        let b = fourier_sum(ring, od, v, k, i);
        let c = ring.power(v, k * i);
        let te = ring.product(ev[i as int], c);
        let to = ring.product(od[i as int], c);
        assert(ev[i as int] == xs[2 * (i as int)]);
        // The even term.
        vstd::arithmetic::mul::lemma_mul_nonnegative(k as int, i as int);
        ring.lemma_power_multiplies(w, 2, k * i);
        assert(k * (2 * i) == 2 * (k * i)) by (nonlinear_arith);
        assert(ring.product(xs[2 * (i as int)], ring.power(w, k * (2 * i) as nat)) == te);
        // The odd term.
        assert(k * (2 * i + 1) == k + 2 * (k * i)) by (nonlinear_arith);
        ring.lemma_power_adds(w, k, 2 * (k * i));
        let q = ring.product(xs[2 * (i as int) + 1], ring.power(w, k * (2 * i + 1) as nat));
        assert(q == ring.product(od[i as int], ring.product(t, c)));
        ring.lemma_product_regroups(od[i as int], t, c);
        ring.lemma_product_swaps(od[i as int], t);
        ring.lemma_product_regroups(t, od[i as int], c);
        assert(q == ring.product(t, to));
        // Both together.
        let s0 = fourier_sum(ring, xs, w, k, 2 * i);
        let s1 = fourier_sum(ring, xs, w, k, (2 * i + 1) as nat);
        let s2 = fourier_sum(ring, xs, w, k, (2 * i + 2) as nat);
        assert(s1 == ring.sum(s0, te));
        assert(s2 == ring.sum(s1, q));
        ring.lemma_sum_regroups(s0, te, q);
        ring.lemma_sums_exchange(a, ring.product(t, b), te, ring.product(t, to));
        ring.lemma_distributes(t, b, to);
        assert(2 * j == 2 * i + 2);
    }
}

/// Half a turn further on, the sum over a half repeats.
proof fn lemma_sum_repeats<T>(ring: Ring<T>, xs: Seq<T>, v: T, k: nat, h: nat, n: nat)
    requires
        ring.is_commutative_ring(),
        ring.power(v, h) == ring.one,
    ensures
        fourier_sum(ring, xs, v, k + h, n) == fourier_sum(ring, xs, v, k, n),
    decreases n,
{
    if n > 0 {
        let i = (n - 1) as nat;
        lemma_sum_repeats(ring, xs, v, k, h, i);
        vstd::arithmetic::mul::lemma_mul_nonnegative(k as int, i as int);
        vstd::arithmetic::mul::lemma_mul_nonnegative(h as int, i as int);
        assert((k + h) * i == k * i + h * i) by (nonlinear_arith);
        ring.lemma_power_adds(v, k * i, h * i);
        ring.lemma_power_multiplies(v, h, i);
        ring.lemma_power_of_one(i);
        ring.lemma_product_swaps(ring.power(v, k * i), ring.one);
    }
}

/// Twiddle factors are the powers of the step.
proof fn lemma_twiddle_values<M: FftMath, T>(
    m: M,
    ring: Ring<T>,
    val: spec_fn(Complex) -> T,
    w: Complex,
    ts: Seq<Complex>,
    k: int,
)
    requires
        twiddles(m, w, ts),
        val(Complex { re: Real64 { bits: ONE_BITS }, im: Real64 { bits: 0 } }) == ring.one,
        forall|i: int|
            0 <= i < ts.len() - 1 ==> val(#[trigger] ts[i + 1]) == ring.product(val(ts[i]), val(w)),
        0 <= k < ts.len(),
    ensures
        val(ts[k]) == ring.power(val(w), k as nat),
    decreases k,
{
    if k > 0 {
        lemma_twiddle_values(m, ring, val, w, ts, k - 1);
        assert(val(ts[k - 1 + 1]) == ring.product(val(ts[k - 1]), val(w)));
    }
}

/// What joining two transforms gives, in values.
proof fn lemma_joined_values<M: FftMath, T>(
    m: M,
    ring: Ring<T>,
    val: spec_fn(Complex) -> T,
    root: spec_fn(nat) -> T,
    e: Seq<Complex>,
    o: Seq<Complex>,
    ys: Seq<Complex>,
    k: int,
)
    requires
        joins(m, e, o, ys),
        joins_exactly(m, ring, val, root, e, o),
        val(Complex { re: Real64 { bits: ONE_BITS }, im: Real64 { bits: 0 } }) == ring.one,
        0 <= k < e.len(),
    ensures
        ys.len() == 2 * e.len(),
        ({
            let t = ring.power(root(2 * e.len()), k as nat);
            let p = ring.product(val(o[k]), t);
            &&& val(ys[k]) == ring.sum(val(e[k]), p)
            &&& val(ys[k + e.len()]) == ring.difference(val(e[k]), p)
        }),
{
    let (w, ts) = choose|w: Complex, ts: Seq<Complex>|
        #![trigger twiddles(m, w, ts)]
        rotation_gives(m, (2 * e.len()) as usize, w) && twiddles(m, w, ts) && joins_with(
            m,
            e,
            o,
            ts,
            ys,
        );
    lemma_twiddle_values(m, ring, val, w, ts, k);
    assert(butterfly(m, e[k], o[k], ts[k], ys[k], ys[k + e.len()]));
    let p = choose|p: Complex| #[trigger]
        product_gives(m, o[k], ts[k], p) && call_ensures(M::complex_sum, (&m, e[k], p), ys[k])
            && call_ensures(M::complex_difference, (&m, e[k], p), ys[k + e.len()]);
    assert(val(p) == ring.product(val(o[k]), val(ts[k])));
}

/// The values of a sequence of complex numbers.
pub open spec fn values<T>(val: spec_fn(Complex) -> T, xs: Seq<Complex>) -> Seq<T> {
    xs.map_values(val)
}

/// The transform is the Fourier sum: where no operation rounds that it applies,
/// element `k` of the transform of `xs` is `sum_n x[n] w^(k n)`, with `w` the root
/// of unity that belongs to the length.
pub proof fn the_transform_is_the_fourier_sum<M: FftMath, T>(
    m: M,
    ring: Ring<T>,
    val: spec_fn(Complex) -> T,
    root: spec_fn(nat) -> T,
    xs: Seq<Complex>,
    ys: Seq<Complex>,
    k: int,
)
    requires
        ring.is_commutative_ring(),
        are_roots(ring, root),
        is_power_of_two(xs.len()),
        is_exact_for(m, ring, val, root, xs),
        is_fft(m, xs, ys),
        0 <= k < xs.len(),
    ensures
        ys.len() == xs.len(),
        val(ys[k]) == fourier_sum(ring, values(val, xs), root(xs.len()), k as nat, xs.len()),
    decreases xs.len(),
{
    let n = xs.len();
    let vs = values(val, xs);
    let w = root(n);
    if n == 1 {
        assert(fourier_sum(ring, vs, w, 0, 0) == ring.zero);
        assert(ring.power(w, 0) == ring.one);
        assert(0nat * 0nat == 0);
        assert(fourier_sum(ring, vs, w, 0, 1) == ring.sum(
            ring.zero,
            ring.product(vs[0], ring.one),
        ));
        ring.lemma_product_swaps(vs[0], ring.one);
        ring.lemma_sum_swaps(ring.zero, vs[0]);
        ring.lemma_sum_neutral(vs[0]);
    } else {
        let h = n / 2;
        assert(n == 2 * h);
        let (e, o) = choose|e: Seq<Complex>, o: Seq<Complex>| #[trigger]
            joins(m, e, o, ys) && e.len() == xs.len() / 2 && is_fft(m, evens(xs), e) && is_fft(
                m,
                odds(xs),
                o,
            );
        assert(joins_exactly(m, ring, val, root, e, o));
        let low = if k < h {
            k
        } else {
            k - h
        };
        the_transform_is_the_fourier_sum(m, ring, val, root, evens(xs), e, low);
        the_transform_is_the_fourier_sum(m, ring, val, root, odds(xs), o, low);
        lemma_joined_values(m, ring, val, root, e, o, ys, low);
        lemma_turns(ring, root, h);
        let ev = values(val, evens(xs));
        let od = values(val, odds(xs));
        let v = root(h);
        assert(v == ring.power(w, 2));
        lemma_sum_splits(ring, vs, ev, od, w, k as nat, h);
        let a = fourier_sum(ring, ev, v, low as nat, h);
        let b = fourier_sum(ring, od, v, low as nat, h);
        let t = ring.power(w, low as nat);
        ring.lemma_product_swaps(b, t);
        if k >= h {
            lemma_sum_repeats(ring, ev, v, low as nat, h, h);
            lemma_sum_repeats(ring, od, v, low as nat, h, h);
            ring.lemma_power_adds(w, low as nat, h);
            // `w^(low + h) * b == (t * -1) * b == -(t * b)`.
            let minus = ring.negated(ring.one);
            ring.lemma_product_regroups(t, minus, b);
            ring.lemma_product_swaps(minus, b);
            ring.lemma_negated_product(b, ring.one);
            ring.lemma_product_swaps(b, ring.one);
            ring.lemma_negated_product(t, b);
        }
    }
}

} // verus!

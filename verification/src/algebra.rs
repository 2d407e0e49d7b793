//! Commutative rings, for what holds of exact arithmetic.
//!
//! The arithmetic of the signal chain is floating point, and rounds. What its
//! formulas amount to where no operation rounds is a matter of algebra: it holds
//! of the values that the numbers stand for, in any ring that they are taken in.

use vstd::prelude::*;

verus! {

/// Operations on values of type `T`.
#[verifier::reject_recursive_types(T)]
pub struct Ring<T> {
    /// The neutral element of addition.
    pub zero: T,
    /// The neutral element of multiplication.
    pub one: T,
    /// Addition.
    pub add_op: spec_fn(T, T) -> T,
    /// Multiplication.
    pub mul_op: spec_fn(T, T) -> T,
    /// The additive inverse.
    pub neg_op: spec_fn(T) -> T,
}

impl<T> Ring<T> {
    /// `a + b`.
    pub open spec fn sum(self, a: T, b: T) -> T {
        (self.add_op)(a, b)
    }

    /// `a * b`.
    pub open spec fn product(self, a: T, b: T) -> T {
        (self.mul_op)(a, b)
    }

    /// `-a`.
    pub open spec fn negated(self, a: T) -> T {
        (self.neg_op)(a)
    }

    /// `a - b`.
    pub open spec fn difference(self, a: T, b: T) -> T {
        self.sum(a, self.negated(b))
    }

    /// `w` to the power of `e`.
    pub open spec fn power(self, w: T, e: nat) -> T
        decreases e,
    {
        if e == 0 {
            self.one
        } else {
            self.product(self.power(w, (e - 1) as nat), w)
        }
    }

    /// The sum of `xs`.
    pub open spec fn total(self, xs: Seq<T>) -> T
        decreases xs.len(),
    {
        if xs.len() == 0 {
            self.zero
        } else {
            self.sum(self.total(xs.drop_last()), xs.last())
        }
    }

    /// The laws of a commutative ring hold.
    #[verifier::opaque]
    pub open spec fn is_commutative_ring(self) -> bool {
        &&& forall|a: T, b: T| #[trigger] self.sum(a, b) == self.sum(b, a)
        &&& forall|a: T, b: T, c: T| #[trigger]
            self.sum(self.sum(a, b), c) == self.sum(a, self.sum(b, c))
        &&& forall|a: T| #[trigger] self.sum(a, self.zero) == a
        &&& forall|a: T| self.sum(a, #[trigger] self.negated(a)) == self.zero
        &&& forall|a: T, b: T| #[trigger] self.product(a, b) == self.product(b, a)
        &&& forall|a: T, b: T, c: T| #[trigger]
            self.product(self.product(a, b), c) == self.product(a, self.product(b, c))
        &&& forall|a: T| #[trigger] self.product(a, self.one) == a
        &&& forall|a: T, b: T, c: T| #[trigger]
            self.product(a, self.sum(b, c)) == self.sum(self.product(a, b), self.product(a, c))
    }

    /// Addition is commutative.
    pub proof fn lemma_sum_swaps(self, a: T, b: T)
        requires
            self.is_commutative_ring(),
        ensures
            self.sum(a, b) == self.sum(b, a),
    {
        reveal(Ring::is_commutative_ring);
    }

    /// Addition is associative.
    pub proof fn lemma_sum_regroups(self, a: T, b: T, c: T)
        requires
            self.is_commutative_ring(),
        ensures
            self.sum(self.sum(a, b), c) == self.sum(a, self.sum(b, c)),
    {
        reveal(Ring::is_commutative_ring);
    }

    /// Zero is neutral, and a number and its inverse cancel.
    pub proof fn lemma_sum_neutral(self, a: T)
        requires
            self.is_commutative_ring(),
        ensures
            self.sum(a, self.zero) == a,
            self.sum(a, self.negated(a)) == self.zero,
    {
        reveal(Ring::is_commutative_ring);
    }

    /// Multiplication is commutative, and one is neutral.
    pub proof fn lemma_product_swaps(self, a: T, b: T)
        requires
            self.is_commutative_ring(),
        ensures
            self.product(a, b) == self.product(b, a),
            self.product(a, self.one) == a,
    {
        reveal(Ring::is_commutative_ring);
    }

    /// Multiplication is associative.
    pub proof fn lemma_product_regroups(self, a: T, b: T, c: T)
        requires
            self.is_commutative_ring(),
        ensures
            self.product(self.product(a, b), c) == self.product(a, self.product(b, c)),
    {
        reveal(Ring::is_commutative_ring);
    }

    /// Multiplication distributes over addition.
    pub proof fn lemma_distributes(self, a: T, b: T, c: T)
        requires
            self.is_commutative_ring(),
        ensures
            self.product(a, self.sum(b, c)) == self.sum(self.product(a, b), self.product(a, c)),
    {
        reveal(Ring::is_commutative_ring);
    }

    /// `(a + b) + (c + d) == (a + c) + (b + d)`.
    pub proof fn lemma_sums_exchange(self, a: T, b: T, c: T, d: T)
        requires
            self.is_commutative_ring(),
        ensures
            self.sum(self.sum(a, b), self.sum(c, d)) == self.sum(self.sum(a, c), self.sum(b, d)),
    {
        self.lemma_sum_regroups(a, b, self.sum(c, d));
        self.lemma_sum_regroups(b, c, d);
        self.lemma_sum_swaps(b, c);
        self.lemma_sum_regroups(c, b, d);
        self.lemma_sum_regroups(a, c, self.sum(b, d));
    }

    /// Anything times zero is zero.
    pub proof fn lemma_zero_product(self, a: T)
        requires
            self.is_commutative_ring(),
        ensures
            self.product(a, self.zero) == self.zero,
    {
        let p = self.product(a, self.zero);
        self.lemma_sum_neutral(self.zero);
        self.lemma_distributes(a, self.zero, self.zero);
        assert(self.sum(p, p) == p);
        self.lemma_sum_regroups(p, p, self.negated(p));
        self.lemma_sum_neutral(p);
    }

    /// `a * (-b) == -(a * b)`.
    pub proof fn lemma_negated_product(self, a: T, b: T)
        requires
            self.is_commutative_ring(),
        ensures
            self.product(a, self.negated(b)) == self.negated(self.product(a, b)),
    {
        let p = self.product(a, b);
        let q = self.product(a, self.negated(b));
        let n = self.negated(p);
        self.lemma_distributes(a, b, self.negated(b));
        self.lemma_sum_neutral(b);
        self.lemma_zero_product(a);
        assert(self.sum(p, q) == self.zero);
        // `q == q + (p + n) == (q + p) + n == n`.
        self.lemma_sum_neutral(q);
        self.lemma_sum_neutral(p);
        self.lemma_sum_regroups(q, p, n);
        self.lemma_sum_swaps(q, p);
        self.lemma_sum_swaps(self.zero, n);
        self.lemma_sum_neutral(n);
    }

    /// Exponents add.
    pub proof fn lemma_power_adds(self, w: T, a: nat, b: nat)
        requires
            self.is_commutative_ring(),
        ensures
            self.power(w, a + b) == self.product(self.power(w, a), self.power(w, b)),
        decreases b,
    {
        if b == 0 {
            self.lemma_product_swaps(self.power(w, a), self.one);
        } else {
            self.lemma_power_adds(w, a, (b - 1) as nat);
            self.lemma_product_regroups(self.power(w, a), self.power(w, (b - 1) as nat), w);
        }
    }

    /// Exponents multiply.
    pub proof fn lemma_power_multiplies(self, w: T, a: nat, b: nat)
        requires
            self.is_commutative_ring(),
        ensures
            self.power(self.power(w, a), b) == self.power(w, a * b),
        decreases b,
    {
        vstd::arithmetic::mul::lemma_mul_is_commutative(a as int, b as int);
        if b == 0 {
            vstd::arithmetic::mul::lemma_mul_basics(a as int);
        } else {
            self.lemma_power_multiplies(w, a, (b - 1) as nat);
            vstd::arithmetic::mul::lemma_mul_is_distributive_sub(a as int, b as int, 1);
            vstd::arithmetic::mul::lemma_mul_basics(a as int);
            vstd::arithmetic::mul::lemma_mul_nonnegative(a as int, b - 1);
            self.lemma_power_adds(w, a * (b - 1) as nat, a);
        }
    }

    /// Powers of one are one.
    pub proof fn lemma_power_of_one(self, e: nat)
        requires
            self.is_commutative_ring(),
        ensures
            self.power(self.one, e) == self.one,
        decreases e,
    {
        if e > 0 {
            self.lemma_power_of_one((e - 1) as nat);
            self.lemma_product_swaps(self.one, self.one);
        }
    }

    /// A common factor can be taken out of a sum.
    pub proof fn lemma_total_scales(self, xs: Seq<T>, c: T)
        requires
            self.is_commutative_ring(),
        ensures
            self.total(xs.map_values(|x: T| self.product(x, c))) == self.product(c, self.total(xs)),
        decreases xs.len(),
    {
        let f = |x: T| self.product(x, c);
        let ys = xs.map_values(f);
        if xs.len() == 0 {
            self.lemma_zero_product(c);
        } else {
            self.lemma_total_scales(xs.drop_last(), c);
            assert(ys.drop_last() =~= xs.drop_last().map_values(f));
            assert(ys.last() == self.product(xs.last(), c));
            self.lemma_product_swaps(xs.last(), c);
            self.lemma_distributes(c, self.total(xs.drop_last()), xs.last());
        }
    }
}

} // verus!

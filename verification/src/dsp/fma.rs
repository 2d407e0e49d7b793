//! Element-wise multiply kernels.

use vstd::prelude::*;
use crate::ieee::Real32;

verus! {

/// Elements that the short kernel handles at most.
pub const LANES: usize = 8;

/// Floating-point arithmetic of the kernels.
pub trait MultiplyAddMath {
    /// `a * b + c`.
    fn multiply_add(&self, a: Real32, b: Real32, c: Real32) -> Real32;
}

/// `r` is what `m` gives for `a * b + c`.
pub open spec fn multiply_add_gives<M: MultiplyAddMath>(
    m: M,
    a: Real32,
    b: Real32,
    c: Real32,
    r: Real32,
) -> bool {
    call_ensures(M::multiply_add, (&m, a, b, c), r)
}

/// Why a kernel refuses its input.
#[derive(Debug, Clone, Copy, PartialEq, Eq, Structural)]
pub enum KernelError {
    /// One of the arrays is empty.
    Empty,
}

impl KernelError {
    /// The error in words.
    pub fn message(&self) -> (s: String)
        ensures
            s@ == "Input arrays must not be empty"@,
    {
        "Input arrays must not be empty".to_owned()
    }
}

/// The smallest of three lengths.
pub open spec fn shortest(a: nat, b: nat, c: nat) -> nat {
    if a <= b && a <= c {
        a
    } else if b <= c {
        b
    } else {
        c
    }
}

/// `after` is `before` with its first `n` elements replaced by the products of
/// `a` and `b`.
pub open spec fn products_written<M: MultiplyAddMath>(
    m: M,
    a: Seq<Real32>,
    b: Seq<Real32>,
    before: Seq<Real32>,
    after: Seq<Real32>,
    n: nat,
) -> bool {
    &&& after.len() == before.len()
    &&& forall|k: int|
        0 <= k < n ==> multiply_add_gives(m, a[k], b[k], Real32 { bits: 0 }, #[trigger] after[k])
    &&& forall|k: int| n <= k < after.len() ==> #[trigger] after[k] == before[k]
}

/// `a * b + c`.
pub fn fmaf<M: MultiplyAddMath>(a: Real32, b: Real32, c: Real32, m: &M) -> (r: Real32)
    ensures
        multiply_add_gives(*m, a, b, c, r),
{
    m.multiply_add(a, b, c)
}

/// The length that all three arrays have.
fn common_len(a: &[Real32], b: &[Real32], c: &[Real32]) -> (n: usize)
    ensures
        n == shortest(a@.len(), b@.len(), c@.len()),
{
    let (la, lb, lc): (usize, usize, usize) = (a.len(), b.len(), c.len());
    if la <= lb && la <= lc {
        la
    } else if lb <= lc {
        lb
    } else {
        lc
    }
}

/// Multiply the first `n` elements of `a` and `b` into `c`.
fn multiply_into<M: MultiplyAddMath>(a: &[Real32], b: &[Real32], c: &mut [Real32], n: usize, m: &M)
    requires
        n <= a@.len(),
        n <= b@.len(),
        n <= old(c)@.len(),
    ensures
        products_written(*m, a@, b@, old(c)@, final(c)@, n as nat),
{
    let ghost before = c@;
    let mut i: usize = 0;
    while i < n
        invariant
            i <= n,
            n <= a@.len(),
            n <= b@.len(),
            n <= c@.len(),
            products_written(*m, a@, b@, before, c@, i as nat),
        decreases n - i,
    {
        let r = fmaf(a[i], b[i], Real32 { bits: 0 }, m);
        c[i] = r;
        i = i + 1;
    }
}

/// Multiply up to eight leading elements of `a` and `b` into `c`.
///
/// Fails, leaving `c` alone, when one of the arrays is empty.
pub fn fused_multiply_add_8lane<M: MultiplyAddMath>(
    a: &[Real32],
    b: &[Real32],
    c: &mut [Real32],
    m: &M,
) -> (r: Result<(), KernelError>)
    ensures
        r is Err <==> shortest(a@.len(), b@.len(), old(c)@.len()) == 0,
        r matches Err(e) ==> e == KernelError::Empty && final(c)@ == old(c)@,
        r is Ok ==> products_written(
            *m,
            a@,
            b@,
            old(c)@,
            final(c)@,
            shortest(shortest(a@.len(), b@.len(), old(c)@.len()), LANES as nat, LANES as nat),
        ),
{
    let n: usize = common_len(a, b, c);
    if n < 1 {
        return Err(KernelError::Empty);
    }
    let count: usize = if n < LANES {
        n
    } else {
        LANES
    };
    multiply_into(a, b, c, count, m);
    Ok(())
}

/// Multiply all elements of `a` and `b` that have a place in `c`.
pub fn fused_multiply_add_kernel<M: MultiplyAddMath>(
    a: &[Real32],
    b: &[Real32],
    c: &mut [Real32],
    m: &M,
) -> (r: Result<(), KernelError>)
    ensures
        r is Ok,
        products_written(
            *m,
            a@,
            b@,
            old(c)@,
            final(c)@,
            shortest(a@.len(), b@.len(), old(c)@.len()),
        ),
{
    let n: usize = common_len(a, b, c);
    multiply_into(a, b, c, n, m);
    Ok(())
}

/// As [`fused_multiply_add_kernel`]: the accumulator base is zero for every
/// element.
pub fn fused_multiply_add_kernel_with_offset<M: MultiplyAddMath>(
    a: &[Real32],
    b: &[Real32],
    c: &mut [Real32],
    m: &M,
) -> (r: Result<(), KernelError>)
    ensures
        r is Ok,
        products_written(
            *m,
            a@,
            b@,
            old(c)@,
            final(c)@,
            shortest(a@.len(), b@.len(), old(c)@.len()),
        ),
{
    fused_multiply_add_kernel(a, b, c, m)
}

} // verus!

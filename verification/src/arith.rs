use vstd::prelude::*;

verus! {

/// A bound on a product from bounds on its factors; used to show that the
/// fixed-width geometric arithmetic below cannot overflow.
pub proof fn lemma_mul_bound(x: int, y: int, bx: int, by: int)
    by (nonlinear_arith)
    requires
        -bx <= x <= bx,
        -by <= y <= by,
        0 <= bx,
        0 <= by,
    ensures
        -(bx * by) <= x * y <= bx * by,
{
}

} // verus!

//! Comparing a product with a bound, where the product itself may not fit
//! the machine integer.

use vstd::prelude::*;

verus! {

/// Whether the square of `p` is below `max`.
pub fn square_below(p: usize, max: usize) -> (below: bool)
    ensures
        below == (p * p < max),
{
    match p.checked_mul(p) {
        Some(square) => square < max,
        None => false,
    }
}

/// Whether the product of `a` and `b` is below `bound`.
pub fn product_below(a: u64, b: u64, bound: u64) -> (below: bool)
    ensures
        below == (a * b < bound),
{
    assert(a * b <= 0xffff_ffff_ffff_ffff * 0xffff_ffff_ffff_ffff) by (nonlinear_arith)
        requires
            0 <= a <= 0xffff_ffff_ffff_ffff,
            0 <= b <= 0xffff_ffff_ffff_ffff,
    ;
    (a as u128) * (b as u128) < bound as u128
}

} // verus!

//! Arithmetic that stops at the largest value of its type.

use vstd::prelude::*;

verus! {

/// A number cut off at the largest `u64`.
pub open spec fn capped(n: int) -> u64 {
    if n > u64::MAX {
        u64::MAX
    } else {
        n as u64
    }
}

/// A number cut off at the largest `usize`.
pub open spec fn capped_count(n: int) -> usize {
    if n > usize::MAX {
        usize::MAX
    } else {
        n as usize
    }
}

/// The product, cut off at the largest `u64`.
pub fn capped_product(a: u64, b: u64) -> (r: u64)
    ensures
        r == capped(a * b),
{
    assert(0 <= a * b <= 0xffff_ffff_ffff_ffff * 0xffff_ffff_ffff_ffff) by (nonlinear_arith)
        requires
            a <= 0xffff_ffff_ffff_ffff,
            b <= 0xffff_ffff_ffff_ffff,
    ;
    let p: u128 = a as u128 * b as u128;
    if p > 0xffff_ffff_ffff_ffff {
        0xffff_ffff_ffff_ffff
    } else {
        p as u64
    }
}

/// The sum, cut off at the largest `u64`.
pub fn capped_sum(a: u64, b: u64) -> (r: u64)
    ensures
        r == capped(a + b),
{
    a.saturating_add(b)
}

/// The sum, cut off at the largest `usize`.
pub fn capped_count_sum(a: usize, b: usize) -> (r: usize)
    ensures
        r == capped_count(a + b),
{
    a.saturating_add(b)
}

/// A number is cut off at the largest value of its type and kept otherwise.
pub proof fn law_cutting_off_keeps_what_fits(n: int)
    requires
        n >= 0,
    ensures
        n <= u64::MAX ==> capped(n) == n,
        n > u64::MAX ==> capped(n) == u64::MAX,
        n <= usize::MAX ==> capped_count(n) == n,
        n > usize::MAX ==> capped_count(n) == usize::MAX,
{
}

} // verus!

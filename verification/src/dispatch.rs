//! Work-group arithmetic for compute dispatches.
use vstd::prelude::*;

verus! {

/// The number of groups of size `b` needed to cover `a` items: `ceil(a / b)`.
pub open spec fn spec_div_ceil(a: int, b: int) -> int {
    (a + b - 1) / b
}

/// Rounds the division `a / b` up.  `b` must be positive and `a + b` must
/// fit in a `u32`, as the computation `(a + b - 1) / b` overflows otherwise.
pub fn div_ceil(a: u32, b: u32) -> (r: u32)
    requires
        b > 0,
        a + b <= u32::MAX,
    ensures
        r == spec_div_ceil(a as int, b as int),
        r * b >= a,
        (r - 1) * b < a || r == 0,
{
    let r = (a + b - 1) / b;
    assert(r * b >= a && ((r - 1) * b < a || r == 0)) by (nonlinear_arith)
        requires
            r as int == (a as int + b as int - 1) / (b as int),
            b > 0,
    ;
    r
}

} // verus!

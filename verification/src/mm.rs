//! Memory-management constants and helpers.

use vstd::prelude::*;

pub mod pmm;

verus! {

/// Size in bytes of one physical page, the allocation granularity.
pub const PAGE_SIZE: usize = 4096;

/// Divide `a` by `b`, rounding towards positive infinity.
pub fn div_up(a: usize, b: usize) -> (r: usize)
    requires
        1 <= b,
    ensures
        r == crate::util::spec_div_up(a as int, b as int),
{
    crate::util::div_up(a, b)
}

} // verus!

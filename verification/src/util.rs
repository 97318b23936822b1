//! Small integer helpers shared by the rest of the kernel.

use vstd::prelude::*;

verus! {

/// Ceiling division on mathematical integers: the least `q` with `a <= q * b`
/// (for `a >= 0`, `b > 0`).
pub open spec fn spec_div_up(a: int, b: int) -> int {
    if a % b == 0 {
        a / b
    } else {
        a / b + 1
    }
}

/// Divide `a` by `b`, rounding towards positive infinity.
pub fn div_up(a: usize, b: usize) -> (r: usize)
    requires
        1 <= b,
    ensures
        r == spec_div_up(a as int, b as int),
{
    let q: usize = a / b;
    if a % b != 0 {
        proof {
            assert(b != 1) by {
                if b == 1 {
                    assert(a as int % 1int == 0);
                }
            }
            assert(a as int == b as int * q as int + a as int % b as int) by {
                vstd::arithmetic::div_mod::lemma_fundamental_div_mod(a as int, b as int);
            }
            assert(q < a) by (nonlinear_arith)
                requires
                    a as int == b as int * q as int + a as int % b as int,
                    b >= 2,
                    q >= 0,
                    a as int % b as int >= 1,
            ;
        }
        q + 1
    } else {
        q
    }
}

} // verus!

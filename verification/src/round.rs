//! Rounding a quotient as a number without decimals is written.

use vstd::prelude::*;

verus! {

/// `n / d`, rounded to the nearest whole number and a tie to the even one.
pub open spec fn half_even(n: nat, d: nat) -> nat {
    let q = n / d;
    let r = n % d;
    if 2 * r < d || (2 * r == d && q % 2 == 0) {
        q
    } else {
        (q + 1) as nat
    }
}

/// The quotient, rounded.
pub fn round_half_even(n: u128, d: u128) -> (r: u128)
    requires
        0 < d <= 0x1_0000_0000,
    ensures
        r == half_even(n as nat, d as nat),
{
    let q = n / d;
    let r = n % d;
    if 2 * r < d || (2 * r == d && q % 2 == 0) {
        q
    } else {
        proof {
            if d == 1 {
                assert(n % 1 == 0);
            } else {
                assert(q <= n / 2) by (nonlinear_arith)
                    requires
                        d >= 2,
                        q == n / d,
                ;
            }
        }
        q + 1
    }
}

} // verus!

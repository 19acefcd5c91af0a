//! When the trace shows a tick.

use vstd::prelude::*;

verus! {

/// `n` is a power of two: 1, 2, 4, ...
pub open spec fn is_power_of_two(n: nat) -> bool
    decreases n,
{
    if n == 1 {
        true
    } else if n == 0 || n % 2 == 1 {
        false
    } else {
        is_power_of_two(n / 2)
    }
}

/// Whether `n` is a power of two.
pub fn is_pow2(n: u64) -> (r: bool)
    requires
        n > 0,
    ensures
        r == is_power_of_two(n as nat),
{
    let mut m: u64 = n;
    while m % 2 == 0
        invariant
            m > 0,
            is_power_of_two(m as nat) == is_power_of_two(n as nat),
        decreases m,
    {
        m = m / 2;
    }
    m == 1
}

} // verus!

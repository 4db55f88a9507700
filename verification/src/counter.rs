//! Event counters of 64 bits that wrap where they overflow.

use vstd::prelude::*;

verus! {

/// A counter after one more event.
pub open spec fn next_count(x: u64) -> u64 {
    if x == u64::MAX {
        0
    } else {
        (x + 1) as u64
    }
}

/// A counter after `n` more events.
pub open spec fn count_after(x: u64, n: nat) -> u64
    decreases n,
{
    if n == 0 {
        x
    } else {
        next_count(count_after(x, (n - 1) as nat))
    }
}

/// The sum of two counters, wrapped to 64 bits.
pub open spec fn wrapped_sum(x: u64, n: u64) -> u64 {
    if x + n <= u64::MAX {
        (x + n) as u64
    } else {
        (x + n - 0x1_0000_0000_0000_0000) as u64
    }
}

/// Counts one more event.
pub fn bump(x: u64) -> (r: u64)
    ensures
        r == next_count(x),
{
    if x == u64::MAX {
        0
    } else {
        x + 1
    }
}

/// Adds `n` events to a counter.
pub fn add_wrapping(x: u64, n: u64) -> (r: u64)
    ensures
        r == wrapped_sum(x, n),
{
    if n <= u64::MAX - x {
        x + n
    } else {
        n - (u64::MAX - x) - 1
    }
}

} // verus!

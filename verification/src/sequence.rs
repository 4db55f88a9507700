//! Ordering and stepping on the 16-bit wrapping sequence space.
//!
//! Sequences live in `0..=65534`; the value 65535 is never produced.

use vstd::prelude::*;

verus! {

/// The largest sequence number in use.
pub const SEQUENCE_MAX: u16 = 65534;

/// Half of the sequence space: the farthest one sequence can be ahead of another.
pub const SEQUENCE_HALF: u16 = 32768;

/// `s` is a member of the sequence space.
pub open spec fn is_sequence(s: u16) -> bool {
    s <= SEQUENCE_MAX
}

/// `s1` is ahead of `s2`, allowing for wraparound.
pub open spec fn seq_greater(s1: u16, s2: u16) -> bool {
    (s1 > s2 && s1 - s2 <= 32768) || (s1 < s2 && s2 - s1 > 32768)
}

/// `s1` is behind `s2`, allowing for wraparound.
pub open spec fn seq_less(s1: u16, s2: u16) -> bool {
    seq_greater(s2, s1)
}

/// `s1` is `s2` or behind it.
pub open spec fn seq_less_or_equal(s1: u16, s2: u16) -> bool {
    s1 == s2 || seq_greater(s2, s1)
}

/// The sequence after `s`: 65534 is followed by 0.
pub open spec fn seq_next(s: u16) -> u16 {
    if s >= 65534 {
        0
    } else {
        (s + 1) as u16
    }
}

/// The sequence before `s`: 0 is preceded by 65534.
pub open spec fn seq_prev(s: u16) -> u16 {
    if s == 0 {
        65534
    } else {
        (s - 1) as u16
    }
}

/// The sequence `n` steps after `s`.
pub open spec fn seq_forward(s: u16, n: nat) -> u16
    decreases n,
{
    if n == 0 {
        s
    } else {
        seq_next(seq_forward(s, (n - 1) as nat))
    }
}

/// The sequence `n` steps before `s`.
pub open spec fn seq_back(s: u16, n: nat) -> u16
    decreases n,
{
    if n == 0 {
        s
    } else {
        seq_prev(seq_back(s, (n - 1) as nat))
    }
}

/// How many steps lead from `from` forward to `to`.
pub open spec fn seq_distance(from: u16, to: u16) -> int {
    if to >= from {
        to - from
    } else {
        to - from + 65535
    }
}

pub struct Sequence {}

impl Sequence {
    #[must_use]
    pub fn is_greater_then(s1: u16, s2: u16) -> (r: bool)
        ensures
            r == seq_greater(s1, s2),
    {
        ((s1 > s2) && (s1 - s2 <= 32768)) || ((s1 < s2) && (s2 - s1 > 32768))
    }

    #[must_use]
    pub fn is_less_than(s1: u16, s2: u16) -> (r: bool)
        ensures
            r == seq_less(s1, s2),
    {
        Self::is_greater_then(s2, s1)
    }

    #[must_use]
    pub fn is_equal_to_or_less_than(s1: u16, s2: u16) -> (r: bool)
        ensures
            r == seq_less_or_equal(s1, s2),
    {
        s1 == s2 || Self::is_greater_then(s2, s1)
    }

    #[must_use]
    pub fn next_sequence(sequence: u16) -> (r: u16)
        ensures
            r == seq_next(sequence),
            is_sequence(r),
    {
        if sequence >= u16::MAX - 1 {
            0
        } else {
            sequence + 1
        }
    }

    #[must_use]
    pub fn previous_sequence(sequence: u16) -> (r: u16)
        ensures
            r == seq_prev(sequence),
            is_sequence(r),
    {
        if sequence == 0 {
            u16::MAX - 1
        } else {
            sequence - 1
        }
    }
}

/// Stepping forward and then back, or back and then forward, returns to the
/// starting sequence.
pub proof fn lemma_next_prev_inverse(s: u16)
    requires
        is_sequence(s),
    ensures
        seq_next(seq_prev(s)) == s,
        seq_prev(seq_next(s)) == s,
{
}

/// The successor of a sequence is ahead of it, across the wrap as well.
pub proof fn lemma_next_is_greater(s: u16)
    requires
        is_sequence(s),
    ensures
        seq_greater(seq_next(s), s),
        !seq_greater(s, seq_next(s)),
{
}

/// Of two different sequences exactly one is ahead of the other, unless they
/// are half the 16-bit range apart, in which case the larger counts as ahead.
pub proof fn lemma_greater_antisymmetric(s1: u16, s2: u16)
    ensures
        s1 == s2 ==> !seq_greater(s1, s2) && !seq_greater(s2, s1),
        s1 != s2 ==> (seq_greater(s1, s2) || seq_greater(s2, s1)),
        s1 != s2 && s1 - s2 != 32768 && s2 - s1 != 32768 ==> (seq_greater(s1, s2) != seq_greater(
            s2,
            s1,
        )),
{
}

/// Stepping forward adds to the distance from any starting point that is
/// not reached by it.
pub proof fn lemma_distance_next(from: u16, to: u16)
    requires
        is_sequence(from),
        is_sequence(to),
        seq_next(to) != from,
    ensures
        seq_distance(from, seq_next(to)) == seq_distance(from, to) + 1,
        is_sequence(seq_next(to)),
{
}

/// `n` steps forward are a distance of `n`, short of a full turn.
pub proof fn lemma_forward_distance(s: u16, n: nat)
    requires
        is_sequence(s),
        n < 65535,
    ensures
        is_sequence(seq_forward(s, n)),
        seq_distance(s, seq_forward(s, n)) == n,
{
    lemma_forward_value(s, n);
}

/// A sequence lies as many steps back from another as its distance to it.
pub proof fn lemma_back_distance(from: u16, to: u16)
    requires
        is_sequence(from),
        is_sequence(to),
    ensures
        seq_back(to, seq_distance(from, to) as nat) == from,
        seq_forward(from, seq_distance(from, to) as nat) == to,
{
    lemma_back_value(to, seq_distance(from, to) as nat);
    lemma_forward_value(from, seq_distance(from, to) as nat);
}

/// Fewer than 1024 sequences in a row fall into different slots of a ring
/// of 1024.
pub proof fn lemma_consecutive_slots_distinct(s: u16, i: nat, j: nat)
    requires
        is_sequence(s),
        1 <= i < j <= 1023,
    ensures
        seq_forward(s, i) % 1024 != seq_forward(s, j) % 1024,
{
    lemma_forward_value(s, i);
    lemma_forward_value(s, j);
    let a: int = seq_forward(s, i) as int;
    let b: int = seq_forward(s, j) as int;
    assert(b == a + (j - i) || b == a + (j - i) - 65535);
    if a % 1024 == b % 1024 {
        assert(a == 1024 * (a / 1024) + a % 1024);
        assert(b == 1024 * (b / 1024) + b % 1024);
        let q = (b / 1024) - (a / 1024);
        assert(b - a == 1024 * q);
        if b == a + (j - i) {
            assert(0 < 1024 * q < 1024);
            assert(false);
        } else {
            assert(1024 * q == (j - i) - 65535);
            assert(-65535 < 1024 * q <= 1022 - 65535);
            assert(q == -63);
            assert(false);
        }
    }
}

/// Up to 32766 steps forward lead to a sequence that is ahead.
pub proof fn lemma_forward_is_greater(s: u16, n: nat)
    requires
        is_sequence(s),
        1 <= n <= 32766,
    ensures
        seq_greater(seq_forward(s, n), s),
{
    lemma_forward_value(s, n);
}

/// Steps forward add up.
pub proof fn lemma_forward_add(s: u16, a: nat, b: nat)
    requires
        is_sequence(s),
    ensures
        is_sequence(seq_forward(s, a)),
        seq_forward(seq_forward(s, a), b) == seq_forward(s, a + b),
{
    lemma_forward_value(s, a);
    lemma_forward_value(seq_forward(s, a), b);
    lemma_forward_value(s, a + b);
    assert(((s + a) % 65535 + b) % 65535 == (s + a + b) % 65535) by (nonlinear_arith);
}

/// A sequence lies as many steps forward from another as its distance
/// from it.
pub proof fn lemma_forward_of_distance(from: u16, to: u16)
    requires
        is_sequence(from),
        is_sequence(to),
    ensures
        to == seq_forward(from, seq_distance(from, to) as nat),
{
    lemma_forward_value(from, seq_distance(from, to) as nat);
}

/// One step and then `n` more are `n + 1` steps.
pub proof fn lemma_forward_shift(s: u16, n: nat)
    ensures
        seq_forward(seq_next(s), n) == seq_forward(s, n + 1),
    decreases n,
{
    reveal_with_fuel(seq_forward, 2);
    if n > 0 {
        lemma_forward_shift(s, (n - 1) as nat);
    }
}

/// Closed form of stepping forward inside the sequence space.
pub proof fn lemma_forward_value(s: u16, n: nat)
    requires
        is_sequence(s),
    ensures
        seq_forward(s, n) == (s + n) % 65535,
    decreases n,
{
    if n > 0 {
        lemma_forward_value(s, (n - 1) as nat);
    }
}

/// Closed form of stepping back. It holds from the first step on even for
/// 65535, which steps into the sequence space.
pub proof fn lemma_back_value(s: u16, n: nat)
    requires
        is_sequence(s) || n >= 1,
    ensures
        seq_back(s, n) == (s - n) % 65535,
    decreases n,
{
    reveal_with_fuel(seq_back, 2);
    if n > 1 || (n == 1 && is_sequence(s)) {
        lemma_back_value(s, (n - 1) as nat);
    }
}

/// Fewer than 65535 steps back never meet the same sequence twice.
pub proof fn lemma_back_distinct(s: u16, a: nat, b: nat)
    requires
        1 <= a < b,
        b - a < 65535,
    ensures
        seq_back(s, a) != seq_back(s, b),
{
    lemma_back_value(s, a);
    lemma_back_value(s, b);
    let x = s - a;
    let y = s - b;
    if x % 65535 == y % 65535 {
        assert(x == 65535 * (x / 65535) + x % 65535);
        assert(y == 65535 * (y / 65535) + y % 65535);
        assert(x - y == 65535 * ((x / 65535) - (y / 65535)));
        assert(false);
    }
}

} // verus!

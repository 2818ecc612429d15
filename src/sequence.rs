//! 16-bit sequence numbers compared under wrap-around ordering.

use vstd::prelude::*;

verus! {

/// A sequence number stamped on every packet; it wraps at 2^16.
pub type SequenceNumber = u16;

/// Half of the sequence space: a difference below it means "ahead".
pub const HALF_SEQUENCE_SPACE: u16 = 32768;

/// `(a - b) mod 2^16`, as a mathematical integer.
pub open spec fn seq_diff(a: u16, b: u16) -> int {
    if a >= b {
        a - b
    } else {
        a - b + 65536
    }
}

/// `s - i` modulo 2^16.
pub open spec fn seq_back(s: u16, i: int) -> u16 {
    ((s - i) % 65536) as u16
}

/// `a` is newer than `b`: they differ and `a` lies less than half the
/// sequence space ahead of `b`.
pub open spec fn seq_greater(a: u16, b: u16) -> bool {
    a != b && seq_diff(a, b) < 32768
}

/// Wrap-around "newer than" on sequence numbers.
pub fn sequence_greater_than(s1: SequenceNumber, s2: SequenceNumber) -> (r: bool)
    ensures
        r == seq_greater(s1, s2),
{
    s1 != s2 && s1.wrapping_sub(s2) < HALF_SEQUENCE_SPACE
}

/// Wrap-around "older than" on sequence numbers.
pub fn sequence_less_than(s1: SequenceNumber, s2: SequenceNumber) -> (r: bool)
    ensures
        r == seq_greater(s2, s1),
{
    sequence_greater_than(s2, s1)
}

} // verus!

//! Keeping numbers inside bounds, and on lines of sixteen.
use vstd::prelude::*;

verus! {

/// The smaller number.
pub open spec fn smaller(a: int, b: int) -> int {
    if a <= b {
        a
    } else {
        b
    }
}

/// The larger number.
pub open spec fn larger(a: int, b: int) -> int {
    if a >= b {
        a
    } else {
        b
    }
}

/// `a - b`, or zero if that is below zero.
pub open spec fn less(a: int, b: int) -> int {
    larger(a - b, 0)
}

/// The multiple of sixteen at `n` or before.
pub open spec fn line_start(n: int) -> int {
    n - n % 16
}

/// The smaller number.
pub fn min_u64(a: u64, b: u64) -> (r: u64)
    ensures
        r == smaller(a as int, b as int),
{
    if a <= b {
        a
    } else {
        b
    }
}

/// The larger number.
pub fn max_u64(a: u64, b: u64) -> (r: u64)
    ensures
        r == larger(a as int, b as int),
{
    if a >= b {
        a
    } else {
        b
    }
}

/// The multiple of sixteen at `n` or before.
pub fn align_line(n: u64) -> (r: u64)
    ensures
        r == line_start(n as int),
{
    assert(n & !0xFu64 == n - n % 16) by (bit_vector);
    n & !0xFu64
}

/// A line begins at zero or behind, and no more than fifteen in front.
pub proof fn lemma_line_start(n: int)
    requires
        0 <= n,
    ensures
        0 <= line_start(n) <= n < line_start(n) + 16,
        line_start(n) % 16 == 0,
{
}

/// Law: the smaller and the larger of two numbers are the two, in order.
pub proof fn law_smaller_and_larger(a: int, b: int)
    ensures
        smaller(a, b) <= a && smaller(a, b) <= b && a <= larger(a, b) && b <= larger(a, b),
        smaller(a, b) + larger(a, b) == a + b,
        0 <= b <= a ==> less(a, b) + b == a,
        0 <= a <= b ==> less(a, b) == 0,
{
}

} // verus!

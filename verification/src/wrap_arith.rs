//! Modular-2^32 sequence-number arithmetic (RFC 793 / RFC 1323).
//!
//! All sequence comparisons in the engine use these wrap-aware predicates.
//! `wlt(a, b)` holds when `b - a` lies strictly in the lower half of the
//! sequence space, i.e. `a` is at most `2^31 - 1` steps behind `b`.
use vstd::prelude::*;

verus! {

/// `(a + b) mod 2^32` as a mathematical definition.
pub open spec fn w_add(a: u32, b: u32) -> u32 {
    if a + b > u32::MAX {
        (a + b - 0x1_0000_0000) as u32
    } else {
        (a + b) as u32
    }
}

/// `(a - b) mod 2^32` as a mathematical definition.
pub open spec fn w_sub(a: u32, b: u32) -> u32 {
    if a - b < 0 {
        (a - b + 0x1_0000_0000) as u32
    } else {
        (a - b) as u32
    }
}

/// Wrap-aware strict "less than": `b - a` lies in `[1, 2^31 - 1]`.
pub open spec fn wlt(a: u32, b: u32) -> bool {
    w_sub(a, b) > 0x8000_0000
}

/// Wrap-aware strict betweenness: `start < x < end` in wrap order.
pub open spec fn between(start: u32, x: u32, end: u32) -> bool {
    wlt(start, x) && wlt(x, end)
}

/// Adding then measuring from the same base is plain addition while the
/// distances stay below 2^32.
pub proof fn lemma_w_sub_of_add(a: u32, k: u32, base: u32)
    requires
        w_sub(a, base) + k < 0x1_0000_0000,
    ensures
        w_sub(w_add(a, k), base) == w_sub(a, base) + k,
{
}

/// Distances from a common base order the points: while both points are
/// within 2^31 - 1 of the base, `wlt` agrees with comparing the distances.
pub proof fn lemma_wlt_iff(base: u32, a: u32, b: u32)
    requires
        w_sub(a, base) < 0x8000_0000,
        w_sub(b, base) < 0x8000_0000,
    ensures
        wlt(a, b) <==> w_sub(a, base) < w_sub(b, base),
{
}

/// Measuring `a` from `b` subtracts the distances from a common base.
pub proof fn lemma_w_sub_chain(base: u32, a: u32, b: u32)
    requires
        w_sub(b, base) <= w_sub(a, base),
    ensures
        w_sub(a, b) == w_sub(a, base) - w_sub(b, base),
{
}

/// A point strictly between two others sits at a distance from the left
/// boundary that is at least one and below the boundaries' distance, as
/// long as the boundaries are less than 2^31 apart.
pub proof fn lemma_between_dist(start: u32, x: u32, end: u32)
    requires
        between(start, x, end),
        w_sub(end, start) < 0x8000_0000,
    ensures
        1 <= w_sub(x, start) < w_sub(end, start),
{
}

/// The converse: distances in range put the point strictly between.
pub proof fn lemma_dist_between(start: u32, x: u32, end: u32)
    requires
        1 <= w_sub(x, start) < w_sub(end, start),
        w_sub(end, start) < 0x8000_0000,
    ensures
        between(start, x, end),
{
}

/// Walking a distance from its base lands back on the point.
pub proof fn lemma_w_add_sub_inverse(a: u32, b: u32)
    ensures
        w_add(b, w_sub(a, b)) == a,
{
}

/// The two distances between distinct points make a full turn of the
/// sequence space.
pub proof fn lemma_w_sub_antisym(a: u32, b: u32)
    ensures
        a == b ==> w_sub(a, b) == 0 && w_sub(b, a) == 0,
        a != b ==> w_sub(a, b) + w_sub(b, a) == 0x1_0000_0000,
{
}

/// Measuring from one step earlier adds one to a distance, as long as the
/// distance does not wrap all the way around.
pub proof fn lemma_w_sub_pred(a: u32, b: u32)
    requires
        w_sub(a, b) < 0xFFFF_FFFF,
    ensures
        w_sub(a, w_sub(b, 1)) == w_sub(a, b) + 1,
{
}

/// Wrap-order comparison of two sequence numbers: `lhs` strictly before `rhs`.
pub fn wrapping_lt(lhs: u32, rhs: u32) -> (r: bool)
    ensures
        r == wlt(lhs, rhs),
{
    lhs.wrapping_sub(rhs) > 0x8000_0000
}

/// Strict wrap-aware betweenness test, `start < x < end` in wrap order.
/// Inclusive bounds are expressed by callers offsetting a boundary by one.
pub fn is_between_wrapped(start: u32, x: u32, end: u32) -> (r: bool)
    ensures
        r == between(start, x, end),
{
    wrapping_lt(start, x) && wrapping_lt(x, end)
}

} // verus!

//! Tests for the wrap-aware sequence arithmetic, including behaviour at
//! the 2^32 boundary.
use thunder::wrap_arith::{is_between_wrapped, wrapping_lt};

#[test]
fn wrapping_lt_basic_order() {
    assert!(wrapping_lt(1, 2));
    assert!(!wrapping_lt(2, 1));
    assert!(!wrapping_lt(5, 5));
    assert!(wrapping_lt(0, 0x7fff_ffff));
    // Exactly half the space apart: neither is before the other.
    assert!(!wrapping_lt(0, 0x8000_0000));
    assert!(!wrapping_lt(0x8000_0000, 0));
}

#[test]
fn wrapping_lt_across_the_boundary() {
    assert!(wrapping_lt(0xffff_fff0, 4));
    assert!(!wrapping_lt(4, 0xffff_fff0));
    assert!(wrapping_lt(u32::MAX, 0));
}

#[test]
fn is_between_wrapped_is_strict() {
    assert!(is_between_wrapped(10, 11, 20));
    assert!(is_between_wrapped(10, 19, 20));
    assert!(!is_between_wrapped(10, 10, 20));
    assert!(!is_between_wrapped(10, 20, 20));
    assert!(!is_between_wrapped(10, 21, 20));
}

#[test]
fn is_between_wrapped_across_the_boundary() {
    assert!(is_between_wrapped(0xffff_fffe, 0xffff_ffff, 3));
    assert!(is_between_wrapped(0xffff_fffe, 0, 3));
    assert!(is_between_wrapped(0xffff_fffe, 2, 3));
    assert!(!is_between_wrapped(0xffff_fffe, 3, 3));
    assert!(!is_between_wrapped(0xffff_fffe, 0xffff_fffd, 3));
}

/// The inclusive form used by the acceptability test: `una <= x <= nxt`
/// is expressed by offsetting both boundaries by one.
#[test]
fn inclusive_bounds_by_offsetting() {
    let una: u32 = 100;
    let nxt: u32 = 105;
    for x in 100..=105u32 {
        assert!(is_between_wrapped(una.wrapping_sub(1), x, nxt.wrapping_add(1)));
    }
    assert!(!is_between_wrapped(una.wrapping_sub(1), 99, nxt.wrapping_add(1)));
    assert!(!is_between_wrapped(una.wrapping_sub(1), 106, nxt.wrapping_add(1)));
}

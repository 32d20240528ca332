//! Depth keys for reciprocal depths that are binary64 numbers.
//!
//! The canvas compares depths as integers. A caller whose depths are IEEE 754
//! binary64 numbers hands over the 64 bits of each, and gets the integer
//! that takes its place: two numbers compare as their keys do. The bits are
//! a sign in the top bit and a magnitude in the other 63; magnitudes above
//! that of infinity are not numbers and get no key.

use vstd::prelude::*;
use crate::canvas::FARTHEST;

verus! {

/// The bit of the sign: set for negative numbers.
pub const SIGN_BIT: u64 = 0x8000_0000_0000_0000;

/// The magnitude of infinity, the largest of any number.
pub const INFINITY: u64 = 0x7ff0_0000_0000_0000;

/// The bits without the sign.
pub open spec fn magnitude(bits: u64) -> int {
    if bits >= SIGN_BIT {
        bits - SIGN_BIT
    } else {
        bits as int
    }
}

/// The bits stand for no number.
pub open spec fn is_nan(bits: u64) -> bool {
    magnitude(bits) > INFINITY
}

/// The place of a number among all numbers: the magnitude above zero, its
/// negation below, and zero for both zeros.
pub open spec fn ordinal(bits: u64) -> int {
    if bits >= SIGN_BIT {
        -magnitude(bits)
    } else {
        magnitude(bits)
    }
}

/// The first number is greater than the second, as binary64 numbers compare:
/// never when one of them is no number, and the two zeros are equal.
pub open spec fn is_greater(first: u64, second: u64) -> bool {
    !is_nan(first) && !is_nan(second) && ordinal(first) > ordinal(second)
}

/// The key of a number: `FARTHEST` for negative infinity, and for every
/// other number its place among all numbers.
pub open spec fn key_of(bits: u64) -> i64 {
    if ordinal(bits) == -INFINITY {
        FARTHEST
    } else {
        ordinal(bits) as i64
    }
}

/// The depth key of a binary64 number given by its bits, or `None` when the
/// bits stand for no number.
pub fn depth_key(bits: u64) -> (key: Option<i64>)
    ensures
        key == if is_nan(bits) {
            None
        } else {
            Some(key_of(bits))
        },
{
    let negative: bool = bits >= SIGN_BIT;
    let magnitude: u64 = if negative {
        bits - SIGN_BIT
    } else {
        bits
    };
    if magnitude > INFINITY {
        None
    } else if negative {
        if magnitude == INFINITY {
            Some(FARTHEST)
        } else {
            Some(-(magnitude as i64))
        }
    } else {
        Some(magnitude as i64)
    }
}

/// Keys compare as their numbers do, and only negative infinity has the key
/// of an empty cell: a pixel at negative infinity is never drawn.
pub proof fn lemma_keys_order_as_numbers(first: u64, second: u64)
    requires
        !is_nan(first),
        !is_nan(second),
    ensures
        key_of(first) > key_of(second) <==> is_greater(first, second),
        key_of(first) == key_of(second) <==> ordinal(first) == ordinal(second),
        key_of(first) == FARTHEST <==> first == SIGN_BIT + INFINITY,
{
}

} // verus!

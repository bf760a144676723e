//! Ranks: whole numbers that order as the numbers of a scene do.
//!
//! The numbers of a scene are IEEE 754 doubles. The bit pattern of a double
//! is a sign bit over a magnitude of 63 bits, and magnitudes order as the
//! sizes of the numbers they stand for. The rank of a number is its
//! magnitude, negated where the sign bit is set. So ranks order as the
//! numbers do, both zeros have rank zero, opposite numbers have opposite
//! ranks, and patterns that stand for no number rank beyond the infinities.

use vstd::prelude::*;

verus! {

/// The sign bit of a bit pattern.
pub const SIGN: u64 = 0x8000_0000_0000_0000;

/// The rank of the greatest finite number.
pub const GREATEST: i64 = 0x7FEF_FFFF_FFFF_FFFF;

/// The rank of the least finite number.
pub const LEAST: i64 = -0x7FEF_FFFF_FFFF_FFFF;

/// The rank of infinity.
pub const INFINITE: i64 = 0x7FF0_0000_0000_0000;

/// The rank of the number with the given bit pattern.
pub open spec fn rank_of(bits: u64) -> i64 {
    if bits < SIGN {
        bits as i64
    } else {
        (-(bits - SIGN)) as i64
    }
}

/// The bit pattern of the number with the given rank. Ranks beyond those of
/// the infinities stand for the infinities.
pub open spec fn bits_of(r: i64) -> u64 {
    if r > INFINITE {
        INFINITE as u64
    } else if r < -INFINITE {
        (INFINITE + SIGN) as u64
    } else if r >= 0 {
        r as u64
    } else {
        (-r + SIGN) as u64
    }
}

/// Whether the rank is that of a finite number.
pub open spec fn is_finite(r: i64) -> bool {
    LEAST <= r <= GREATEST
}

/// The rank of the opposite number.
pub open spec fn opposite(r: i64) -> i64 {
    if r == i64::MIN {
        i64::MAX
    } else {
        (-r) as i64
    }
}

/// The rank of the number with the given bit pattern.
pub fn rank(bits: u64) -> (r: i64)
    ensures
        r == rank_of(bits),
{
    if bits < SIGN {
        bits as i64
    } else {
        -((bits - SIGN) as i64)
    }
}

/// The bit pattern of the number with the given rank.
pub fn unrank(r: i64) -> (bits: u64)
    ensures
        bits == bits_of(r),
{
    if r > INFINITE {
        INFINITE as u64
    } else if r < -INFINITE {
        INFINITE as u64 + SIGN
    } else if r >= 0 {
        r as u64
    } else {
        (-r) as u64 + SIGN
    }
}

/// The rank of the opposite number. No number has the least `i64` as its
/// rank; its opposite is taken to be the greatest.
pub fn negate(r: i64) -> (n: i64)
    ensures
        n == opposite(r),
{
    if r == i64::MIN {
        i64::MAX
    } else {
        -r
    }
}

/// Every rank up to those of the infinities is the rank of its own bit
/// pattern, and every bit pattern of a number is the pattern of its own rank,
/// but for the zero with the sign bit set, which comes back without it.
pub proof fn lemma_round_trip(r: i64, bits: u64)
    ensures
        -INFINITE <= r <= INFINITE ==> rank_of(bits_of(r)) == r,
        -INFINITE <= rank_of(bits) <= INFINITE && bits != SIGN ==> bits_of(rank_of(bits)) == bits,
        bits_of(rank_of(SIGN)) == 0,
{
}

/// Ranks order as magnitudes do where the sign bit is clear, the other way
/// round where it is set, and a pattern with the sign bit set never ranks
/// above one without.
pub proof fn lemma_rank_orders(a: u64, b: u64)
    ensures
        a < b < SIGN ==> rank_of(a) < rank_of(b),
        SIGN <= a < b ==> rank_of(a) > rank_of(b),
        a < SIGN <= b ==> rank_of(b) <= 0 <= rank_of(a),
        rank_of(0) == 0,
        rank_of(SIGN) == 0,
{
}

/// Setting the sign bit gives the opposite rank.
pub proof fn lemma_sign_gives_opposite(bits: u64)
    requires
        bits < SIGN,
    ensures
        rank_of((bits + SIGN) as u64) == opposite(rank_of(bits)),
        opposite(opposite(rank_of(bits))) == rank_of(bits),
{
}

} // verus!

//! The combinatorial core of an offline path tracer: nearest-hit search over
//! lists and bounding-volume hierarchies, slab clipping, lattice hashing for
//! gradient noise, texel lookup and the pixel stream.
//!
//! The library never does arithmetic on scene coordinates. Wherever it has to
//! compare two of them it takes their *ranks*: `i64` values that order exactly
//! as the numbers do, with rank zero for the number zero. The module `rank`
//! says how a number gets its rank.
//!
//! Whatever has to be worked out on the coordinates themselves is asked of the
//! caller through a function argument: `probe` for the hit of an object,
//! `enters` for the test of a ray against a box, `bounce` for what a surface
//! does to a ray. The contract of each search says which answers of these can
//! lead to which result, and the laws beside it say what the result is when
//! the answers are what geometry makes them.

pub mod aabb;
pub mod bvh;
pub mod color;
pub mod constant_medium;
pub mod hittable;
pub mod interval;
pub mod material;
pub mod perlin;
pub mod rank;
pub mod rt_image;
pub mod scene;
pub mod texture;

use vstd::prelude::*;
use nanorand::Rng;

verus! {

/// A point or a direction in space, each coordinate given by its rank.
#[derive(Clone, Copy, Debug, PartialEq, Eq, Structural)]
pub struct Point3 {
    pub x: i64,
    pub y: i64,
    pub z: i64,
}

impl Point3 {
    /// Whether all three coordinates are finite.
    pub open spec fn finite(self) -> bool {
        rank::is_finite(self.x) && rank::is_finite(self.y) && rank::is_finite(self.z)
    }

    /// The opposite direction.
    pub open spec fn opposite(self) -> Point3 {
        Point3 { x: rank::opposite(self.x), y: rank::opposite(self.y), z: rank::opposite(self.z) }
    }

    /// The opposite direction.
    pub fn negated(&self) -> (r: Point3)
        ensures
            r == self.opposite(),
    {
        Point3 { x: rank::negate(self.x), y: rank::negate(self.y), z: rank::negate(self.z) }
    }
}

/// How many equal parts the unit range is cut into by one random draw.
pub const DRAW_PARTS: u32 = 1001;

/// Calls `nanorand::tls_rng()` and `Rng::generate_range` on the inclusive range
/// from zero to `limit`, with an unsigned word. nanorand multiplies a uniform
/// word by the width of the range and keeps the high half, so the outcome
/// never exceeds `limit`. Nothing else is known of it.
#[verifier::external_body]
fn draw_at_most(limit: u32) -> (k: u32)
    ensures
        k <= limit,
{
    nanorand::tls_rng().generate_range(0..=limit)
}

/// One random draw from the thread's generator: a whole number below
/// `DRAW_PARTS`. Divided by `DRAW_PARTS` it is a fraction from zero up to,
/// and short of, one.
pub fn random_draw() -> (k: u32)
    ensures
        k < DRAW_PARTS,
{
    draw_at_most(DRAW_PARTS - 1)
}

/// The quotient of `n` by `d` rounded toward zero.
pub open spec fn toward_zero(n: int, d: int) -> int
    recommends
        d > 0,
{
    if n >= 0 {
        n / d
    } else {
        -((-n) / d)
    }
}

/// The integer that draw `k` of `DRAW_PARTS` selects between `min` and `max`:
/// `min` plus `k` parts of the `max + 1 - min` integers to choose from,
/// rounded toward zero.
pub open spec fn pick(min: int, max: int, k: int) -> int {
    toward_zero(min * DRAW_PARTS as int + (max + 1 - min) * k, DRAW_PARTS as int)
}

/// Every draw selects an integer from `[min, max]`, provided the range reaches
/// zero or above. (Below zero the rounding is upward, and the last draws of a
/// range that ends under zero select `max + 1`.)
pub proof fn lemma_pick_in_range(min: int, max: int, k: int)
    requires
        min <= max,
        0 <= max,
        0 <= k < DRAW_PARTS,
    ensures
        min <= pick(min, max, k) <= max,
{
    let span = max + 1 - min;
    assert(0 <= span * k <= span * (DRAW_PARTS - 1)) by (nonlinear_arith)
        requires
            span >= 1,
            0 <= k <= DRAW_PARTS - 1,
    ;
}

/// Whatever the bounds, the selected integer lies between `min` and `max + 1`.
pub proof fn lemma_pick_bounded(min: int, max: int, k: int)
    requires
        0 <= k < DRAW_PARTS,
    ensures
        min <= pick(min, max, k) <= max + 1 || max + 1 <= pick(min, max, k) <= min,
{
    let span = max + 1 - min;
    if span >= 0 {
        assert(0 <= span * k <= span * (DRAW_PARTS - 1)) by (nonlinear_arith)
            requires
                span >= 0,
                0 <= k <= DRAW_PARTS - 1,
        ;
    } else {
        assert(span * (DRAW_PARTS - 1) <= span * k <= 0) by (nonlinear_arith)
            requires
                span < 0,
                0 <= k <= DRAW_PARTS - 1,
        ;
    }
}

/// The integer of `[min, max]` that draw `k` selects.
pub fn isize_from_draw(min: isize, max: isize, k: u32) -> (r: isize)
    requires
        max < isize::MAX,
        k < DRAW_PARTS,
    ensures
        r == pick(min as int, max as int, k as int),
{
    let span: i128 = max as i128 + 1 - min as i128;
    assert(-0x1_0000_0000_0000_0000 * DRAW_PARTS <= span * (k as i128) <= 0x1_0000_0000_0000_0000
        * DRAW_PARTS) by (nonlinear_arith)
        requires
            -0x1_0000_0000_0000_0000 <= span <= 0x1_0000_0000_0000_0000,
            0 <= k <= DRAW_PARTS,
    ;
    let parts: i128 = DRAW_PARTS as i128;
    let n: i128 = min as i128 * parts + span * (k as i128);
    proof {
        lemma_pick_bounded(min as int, max as int, k as int);
    }
    if n >= 0 {
        (n / parts) as isize
    } else {
        (-((-n) / parts)) as isize
    }
}

/// The integer of `[min, max]` that draw `k` selects.
pub fn usize_from_draw(min: usize, max: usize, k: u32) -> (r: usize)
    requires
        max < usize::MAX,
        k < DRAW_PARTS,
    ensures
        r == pick(min as int, max as int, k as int),
{
    let span: i128 = max as i128 + 1 - min as i128;
    assert(-0x1_0000_0000_0000_0000 * DRAW_PARTS <= span * (k as i128) <= 0x1_0000_0000_0000_0000
        * DRAW_PARTS) by (nonlinear_arith)
        requires
            -0x1_0000_0000_0000_0000 <= span <= 0x1_0000_0000_0000_0000,
            0 <= k <= DRAW_PARTS,
    ;
    let parts: i128 = DRAW_PARTS as i128;
    let n: i128 = min as i128 * parts + span * (k as i128);
    proof {
        lemma_pick_bounded(min as int, max as int, k as int);
    }
    (n / parts) as usize
}

/// A random integer between `min` and `max`: the one that a draw from the
/// thread's generator selects. It lies in `[min, max]` whenever that range
/// reaches zero or above.
pub fn random_isize_range(min: isize, max: isize) -> (r: isize)
    requires
        max < isize::MAX,
    ensures
        exists|k: int| 0 <= k < DRAW_PARTS && r == #[trigger] pick(min as int, max as int, k),
        min <= max && 0 <= max ==> min <= r <= max,
{
    let k = random_draw();
    proof {
        if min <= max && 0 <= max {
            lemma_pick_in_range(min as int, max as int, k as int);
        }
    }
    isize_from_draw(min, max, k)
}

/// A random integer of `[min, max]`: the one that a draw from the thread's
/// generator selects.
pub fn random_usize_range(min: usize, max: usize) -> (r: usize)
    requires
        max < usize::MAX,
    ensures
        exists|k: int| 0 <= k < DRAW_PARTS && r == #[trigger] pick(min as int, max as int, k),
        min <= max ==> min <= r <= max,
{
    let k = random_draw();
    proof {
        if min <= max {
            lemma_pick_in_range(min as int, max as int, k as int);
        }
    }
    usize_from_draw(min, max, k)
}

/// `value` moved to the nearer of the two bounds where it lies outside them.
/// The lower bound is tested first.
pub open spec fn clamped(value: i64, min: i64, max: i64) -> i64 {
    if value < min {
        min
    } else if value > max {
        max
    } else {
        value
    }
}

#[inline]
pub fn clamp(value: i64, min: i64, max: i64) -> (r: i64)
    ensures
        r == clamped(value, min, max),
{
    if value < min {
        return min;
    }
    if value > max {
        return max;
    }
    value
}

} // verus!

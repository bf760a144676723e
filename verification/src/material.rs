//! What is decided about scattering on ranks alone: whether a number or a
//! direction has all but vanished.

use vstd::prelude::*;
use crate::Point3;

verus! {

/// The rank of a hundred-millionth, below which a coordinate counts as
/// vanished.
pub const EPSILON: i64 = 0x3E45_798E_E230_8C3A;

/// Whether a coordinate lies within a hundred-millionth of zero.
pub open spec fn vanishes(r: i64) -> bool {
    -EPSILON < r < EPSILON
}

/// Whether the vector is close to zero in all dimensions.
pub open spec fn is_near_zero(vector: Point3) -> bool {
    vanishes(vector.x) && vanishes(vector.y) && vanishes(vector.z)
}

/// Whether a coordinate lies within a hundred-millionth of zero.
pub fn vanished(r: i64) -> (v: bool)
    ensures
        v == vanishes(r),
{
    -EPSILON < r && r < EPSILON
}

/// Whether the vector is close to zero in all dimensions.
pub fn near_zero(vector: &Point3) -> (r: bool)
    ensures
        r == is_near_zero(*vector),
{
    vanished(vector.x) && vanished(vector.y) && vanished(vector.z)
}

/// The direction in which a diffuse surface sends a ray on: the one that was
/// drawn for it, or, where that has all but vanished, the normal itself.
pub fn scatter_direction(drawn: Point3, normal: Point3) -> (direction: Point3)
    ensures
        direction == if is_near_zero(drawn) {
            normal
        } else {
            drawn
        },
{
    if near_zero(&drawn) {
        normal
    } else {
        drawn
    }
}

/// A direction that is sent on has not vanished, unless the normal itself
/// has.
pub proof fn lemma_scattered_has_not_vanished(drawn: Point3, normal: Point3)
    requires
        !is_near_zero(normal),
    ensures
        !is_near_zero(if is_near_zero(drawn) { normal } else { drawn }),
{
}

} // verus!

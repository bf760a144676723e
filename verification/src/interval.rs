//! Closed ranges of ranks.

use vstd::prelude::*;
use crate::rank::{GREATEST, LEAST};

verus! {

/// The closed range of ranks from `min` to `max`. A range whose `min` lies
/// above its `max` holds nothing.
#[derive(Clone, Copy, Debug, PartialEq, Eq, Structural)]
pub struct Interval {
    pub min: i64,
    pub max: i64,
}

impl Interval {
    /// The range from the greatest finite number down to the least: it holds
    /// nothing.
    pub open spec fn spec_empty() -> Interval {
        Interval { min: GREATEST, max: LEAST }
    }

    /// The range of all finite numbers.
    pub open spec fn spec_universe() -> Interval {
        Interval { min: LEAST, max: GREATEST }
    }

    /// Whether both ends of the range are finite.
    pub open spec fn finite(self) -> bool {
        LEAST <= self.min <= GREATEST && LEAST <= self.max <= GREATEST
    }

    /// The range that holds nothing and leaves every finite range unchanged
    /// when united with it.
    #[verifier::when_used_as_spec(spec_empty)]
    pub fn empty() -> (r: Interval)
        ensures
            r == Self::spec_empty(),
    {
        Interval { min: GREATEST, max: LEAST }
    }

    /// The range of all finite numbers.
    #[verifier::when_used_as_spec(spec_universe)]
    pub fn universe() -> (r: Interval)
        ensures
            r == Self::spec_universe(),
    {
        Interval { min: LEAST, max: GREATEST }
    }

    /// Whether `x` lies in the range, ends included.
    pub open spec fn holds(self, x: int) -> bool {
        self.min <= x <= self.max
    }

    /// Whether every rank of `inner` lies in this range.
    pub open spec fn covers(self, inner: Interval) -> bool {
        self.min <= inner.min && inner.max <= self.max
    }

    /// The smallest range that covers both `a` and `b`.
    pub open spec fn hull(a: Interval, b: Interval) -> Interval {
        Interval {
            min: if a.min <= b.min { a.min } else { b.min },
            max: if a.max >= b.max { a.max } else { b.max },
        }
    }

    /// The rank of the range nearest to `x`.
    pub open spec fn nearest(self, x: i64) -> i64 {
        if x < self.min {
            self.min
        } else if x > self.max {
            self.max
        } else {
            x
        }
    }

    pub fn new(min: i64, max: i64) -> (r: Self)
        ensures
            r == (Interval { min, max }),
    {
        Interval { min, max }
    }

    /// The smallest range that covers both arguments.
    pub fn from_intervals(a: &Interval, b: &Interval) -> (r: Self)
        ensures
            r == Self::hull(*a, *b),
    {
        Interval {
            min: if a.min <= b.min { a.min } else { b.min },
            max: if a.max >= b.max { a.max } else { b.max },
        }
    }

    pub fn contains(&self, x: i64) -> (r: bool)
        ensures
            r == self.holds(x as int),
    {
        self.min <= x && x <= self.max
    }

    /// `x` moved to the nearer end of the range where it lies outside. The
    /// lower end is tested first, so a range that holds nothing gives its
    /// `min` for every `x` below that.
    pub fn clamp(&self, x: i64) -> (r: i64)
        ensures
            r == self.nearest(x),
    {
        if x < self.min {
            return self.min;
        }
        if x > self.max {
            return self.max;
        }
        x
    }

    /// A range covers both ranges it was united from, and every range that
    /// covers both covers their union.
    pub proof fn lemma_hull_is_least(a: Interval, b: Interval, c: Interval)
        ensures
            Self::hull(a, b).covers(a),
            Self::hull(a, b).covers(b),
            c.covers(a) && c.covers(b) ==> c.covers(Self::hull(a, b)),
    {
    }

    /// The empty range holds nothing, and uniting a finite range with it
    /// changes nothing. The universe holds just the finite ranks.
    pub proof fn lemma_hull_with_empty(a: Interval)
        ensures
            forall|x: int| !Self::empty().holds(x),
            forall|x: int| Self::universe().holds(x) <==> LEAST <= x <= GREATEST,
            a.finite() ==> Self::hull(Self::empty(), a) == a && Self::hull(a, Self::empty()) == a,
    {
    }

    /// Clamping lands inside every range that holds something, and moves
    /// nothing that is inside already.
    pub proof fn lemma_nearest_is_inside(self, x: i64)
        ensures
            self.min <= self.max ==> self.holds(self.nearest(x) as int),
            self.holds(x as int) ==> self.nearest(x) == x,
    {
    }
}

impl Default for Interval {
    /// The empty range.
    fn default() -> (r: Self)
        ensures
            r == Interval::empty(),
    {
        Interval { min: GREATEST, max: LEAST }
    }
}

} // verus!

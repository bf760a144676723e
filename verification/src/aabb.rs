//! Axis-aligned boxes, and the slab test that tells whether a ray enters one.

use vstd::prelude::*;
use crate::interval::Interval;
use crate::Point3;

verus! {

/// An axis-aligned box: one range of ranks on each axis.
#[derive(Clone, Copy, Debug, PartialEq, Eq, Structural)]
pub struct Aabb {
    pub x: Interval,
    pub y: Interval,
    pub z: Interval,
}

/// Where a ray meets the two planes that bound a box on one axis.
#[derive(Clone, Copy, Debug, PartialEq, Eq, Structural)]
pub struct Slab {
    /// Rank of the ray parameter at the plane of the box's `min`.
    pub t0: i64,
    /// Rank of the ray parameter at the plane of the box's `max`.
    pub t1: i64,
    /// Whether the ray runs down the axis, so that it meets the plane of
    /// `max` first.
    pub reversed: bool,
}

impl Slab {
    /// The rank at which the ray comes between the two planes.
    pub open spec fn entry(self) -> i64 {
        if self.reversed {
            self.t1
        } else {
            self.t0
        }
    }

    /// The rank at which the ray leaves the two planes behind.
    pub open spec fn exit(self) -> i64 {
        if self.reversed {
            self.t0
        } else {
            self.t1
        }
    }

    /// `ray_t` cut down to the part that lies between the two planes.
    pub open spec fn clip(self, ray_t: Interval) -> Interval {
        Interval {
            min: if self.entry() > ray_t.min { self.entry() } else { ray_t.min },
            max: if self.exit() < ray_t.max { self.exit() } else { ray_t.max },
        }
    }
}

impl Aabb {
    /// The range of the box on axis `index`: 1 is y, 2 is z, anything else x.
    pub open spec fn side(self, index: int) -> Interval {
        if index == 1 {
            self.y
        } else if index == 2 {
            self.z
        } else {
            self.x
        }
    }

    /// Whether `inner` lies within this box on every axis.
    pub open spec fn encloses(self, inner: Aabb) -> bool {
        self.x.covers(inner.x) && self.y.covers(inner.y) && self.z.covers(inner.z)
    }

    /// The smallest box that encloses both `a` and `b`.
    pub open spec fn hull(a: Aabb, b: Aabb) -> Aabb {
        Aabb {
            x: Interval::hull(a.x, b.x),
            y: Interval::hull(a.y, b.y),
            z: Interval::hull(a.z, b.z),
        }
    }

    /// The box with the two points as opposite corners.
    pub open spec fn spanning(a: Point3, b: Point3) -> Aabb {
        Aabb {
            x: Interval {
                min: if a.x <= b.x { a.x } else { b.x },
                max: if a.x >= b.x { a.x } else { b.x },
            },
            y: Interval {
                min: if a.y <= b.y { a.y } else { b.y },
                max: if a.y >= b.y { a.y } else { b.y },
            },
            z: Interval {
                min: if a.z <= b.z { a.z } else { b.z },
                max: if a.z >= b.z { a.z } else { b.z },
            },
        }
    }

    /// The corner of the box that lies at the high end on x where `i` is 1, on
    /// y where `j` is 1 and on z where `k` is 1, and at the low end elsewhere.
    pub open spec fn corner(self, i: int, j: int, k: int) -> Point3 {
        Point3 {
            x: if i == 1 { self.x.max } else { self.x.min },
            y: if j == 1 { self.y.max } else { self.y.min },
            z: if k == 1 { self.z.max } else { self.z.min },
        }
    }

    /// Whether all six ends of the box are finite.
    pub open spec fn finite(self) -> bool {
        self.x.finite() && self.y.finite() && self.z.finite()
    }

    /// Whether the point lies in the box.
    pub open spec fn holds(self, p: Point3) -> bool {
        self.x.holds(p.x as int) && self.y.holds(p.y as int) && self.z.holds(p.z as int)
    }

    /// The smallest box that holds all the points: the empty box widened by
    /// one point after the other.
    pub open spec fn bounding(points: Seq<Point3>) -> Aabb
        decreases points.len(),
    {
        if points.len() == 0 {
            Self::spec_empty()
        } else {
            Self::hull(
                Self::bounding(points.drop_last()),
                Self::spanning(points.last(), points.last()),
            )
        }
    }

    /// The box that encloses nothing.
    pub open spec fn spec_empty() -> Aabb {
        Aabb { x: Interval::empty(), y: Interval::empty(), z: Interval::empty() }
    }

    /// Whether a stretch of the ray lies between the two planes on every
    /// axis.
    pub open spec fn between(slabs: [Slab; 3], stretch: Interval) -> bool {
        &&& slabs[0].entry() <= stretch.min && stretch.max <= slabs[0].exit()
        &&& slabs[1].entry() <= stretch.min && stretch.max <= slabs[1].exit()
        &&& slabs[2].entry() <= stretch.min && stretch.max <= slabs[2].exit()
    }

    /// What is left of `ray_t` between the pairs of planes of the first
    /// `axes` axes, taken one axis after the other.
    pub open spec fn clipped(slabs: [Slab; 3], ray_t: Interval, axes: int) -> Interval
        decreases axes,
    {
        if axes <= 0 {
            ray_t
        } else {
            slabs[axes - 1].clip(Self::clipped(slabs, ray_t, axes - 1))
        }
    }

    /// Whether a stretch of more than a point is left of `ray_t` inside the
    /// box.
    pub open spec fn entered(slabs: [Slab; 3], ray_t: Interval) -> bool {
        Self::clipped(slabs, ray_t, 3).min < Self::clipped(slabs, ray_t, 3).max
    }

    pub fn new(x: Interval, y: Interval, z: Interval) -> (r: Self)
        ensures
            r == (Aabb { x, y, z }),
    {
        Aabb { x, y, z }
    }

    /// The box that encloses nothing.
    #[verifier::when_used_as_spec(spec_empty)]
    pub fn empty() -> (r: Self)
        ensures
            r == Self::spec_empty(),
    {
        Aabb { x: Interval::empty(), y: Interval::empty(), z: Interval::empty() }
    }

    /// The box with the two points as opposite corners, whichever way round
    /// they are given.
    pub fn from_points(a: &Point3, b: &Point3) -> (r: Self)
        ensures
            r == Self::spanning(*a, *b),
    {
        Aabb {
            x: Interval::new(
                if a.x <= b.x { a.x } else { b.x },
                if a.x >= b.x { a.x } else { b.x },
            ),
            y: Interval::new(
                if a.y <= b.y { a.y } else { b.y },
                if a.y >= b.y { a.y } else { b.y },
            ),
            z: Interval::new(
                if a.z <= b.z { a.z } else { b.z },
                if a.z >= b.z { a.z } else { b.z },
            ),
        }
    }

    /// The smallest box that encloses both arguments.
    pub fn from_aabbs(box_0: &Aabb, box_1: &Aabb) -> (r: Self)
        ensures
            r == Self::hull(*box_0, *box_1),
    {
        Aabb {
            x: Interval::from_intervals(&box_0.x, &box_1.x),
            y: Interval::from_intervals(&box_0.y, &box_1.y),
            z: Interval::from_intervals(&box_0.z, &box_1.z),
        }
    }

    /// The range of the box on axis `index`: 1 is y, 2 is z, anything else x.
    pub fn axis(&self, index: usize) -> (r: &Interval)
        ensures
            *r == self.side(index as int),
    {
        match index {
            1 => &self.y,
            2 => &self.z,
            _ => &self.x,
        }
    }

    /// The eight corners of the box. The corner that lies at the high end on
    /// x where `i` is 1, on y where `j` is 1 and on z where `k` is 1 stands at
    /// place `4 * i + 2 * j + k`.
    pub fn corners(&self) -> (c: [Point3; 8])
        ensures
            forall|i: int, j: int, k: int|
                0 <= i < 2 && 0 <= j < 2 && 0 <= k < 2 ==> #[trigger] c[4 * i + 2 * j + k]
                    == self.corner(i, j, k),
    {
        let c = [
            Point3 { x: self.x.min, y: self.y.min, z: self.z.min },
            Point3 { x: self.x.min, y: self.y.min, z: self.z.max },
            Point3 { x: self.x.min, y: self.y.max, z: self.z.min },
            Point3 { x: self.x.min, y: self.y.max, z: self.z.max },
            Point3 { x: self.x.max, y: self.y.min, z: self.z.min },
            Point3 { x: self.x.max, y: self.y.min, z: self.z.max },
            Point3 { x: self.x.max, y: self.y.max, z: self.z.min },
            Point3 { x: self.x.max, y: self.y.max, z: self.z.max },
        ];
        assert forall|i: int, j: int, k: int|
            0 <= i < 2 && 0 <= j < 2 && 0 <= k < 2 implies #[trigger] c[4 * i + 2 * j + k]
            == self.corner(i, j, k) by {
            let place = 4 * i + 2 * j + k;
            assert(place == 0 || place == 1 || place == 2 || place == 3 || place == 4 || place == 5
                || place == 6 || place == 7);
        }
        c
    }

    /// The smallest box that holds all the points; the empty box where there
    /// is no point.
    pub fn around(points: &Vec<Point3>) -> (r: Self)
        ensures
            r == Self::bounding(points@),
    {
        let mut r = Self::empty();
        let mut n: usize = 0;
        while n < points.len()
            invariant
                n <= points.len(),
                r == Self::bounding(points@.take(n as int)),
            decreases points.len() - n,
        {
            let p = points[n];
            assert(points@.take(n + 1).drop_last() =~= points@.take(n as int));
            r = Self::from_aabbs(&r, &Self::from_points(&p, &p));
            n += 1;
        }
        assert(points@.take(n as int) =~= points@);
        r
    }

    /// The slab test. `slabs` holds, for x, y and z in turn, where the ray
    /// meets the planes of the box. Starting from `ray_t`, the stretch of the
    /// ray is cut down axis by axis; the ray misses as soon as nothing of
    /// positive length is left.
    pub fn hit(slabs: &[Slab; 3], ray_t: Interval) -> (r: bool)
        ensures
            r == Self::entered(*slabs, ray_t),
    {
        let mut running = ray_t;
        let mut a: usize = 0;
        while a < 3
            invariant
                a <= 3,
                running == Self::clipped(*slabs, ray_t, a as int),
                a >= 1 ==> running.min < running.max,
            decreases 3 - a,
        {
            let slab = slabs[a];
            let (entry, exit) = if slab.reversed {
                (slab.t1, slab.t0)
            } else {
                (slab.t0, slab.t1)
            };
            let ray_t_min = if entry > running.min { entry } else { running.min };
            let ray_t_max = if exit < running.max { exit } else { running.max };
            if ray_t_max <= ray_t_min {
                proof {
                    Self::lemma_clipping_shrinks(*slabs, ray_t, a as int + 1, 3);
                }
                return false;
            }
            running = Interval::new(ray_t_min, ray_t_max);
            a += 1;
        }
        true
    }

    /// Each further axis leaves less: what is left after more axes lies
    /// within what was left after fewer.
    pub proof fn lemma_clipping_shrinks(slabs: [Slab; 3], ray_t: Interval, fewer: int, more: int)
        requires
            0 <= fewer <= more <= 3,
        ensures
            Self::clipped(slabs, ray_t, fewer).covers(Self::clipped(slabs, ray_t, more)),
        decreases more - fewer,
    {
        if fewer < more {
            Self::lemma_clipping_shrinks(slabs, ray_t, fewer, more - 1);
        }
    }

    /// A ray enters the box within `ray_t` exactly when some stretch of it, of
    /// more than a point, lies within `ray_t` and between the planes on every
    /// axis.
    pub proof fn lemma_entered_iff_stretch_inside(slabs: [Slab; 3], ray_t: Interval)
        ensures
            Self::entered(slabs, ray_t) <==> exists|stretch: Interval|
                stretch.min < stretch.max && ray_t.covers(stretch) && #[trigger] Self::between(
                    slabs,
                    stretch,
                ),
    {
        reveal_with_fuel(Aabb::clipped, 4);
        if Self::entered(slabs, ray_t) {
            let stretch = Self::clipped(slabs, ray_t, 3);
            assert(Self::between(slabs, stretch));
            assert(ray_t.covers(stretch));
        }
        if exists|stretch: Interval|
            stretch.min < stretch.max && ray_t.covers(stretch) && #[trigger] Self::between(
                slabs,
                stretch,
            ) {
            let stretch = choose|stretch: Interval|
                stretch.min < stretch.max && ray_t.covers(stretch) && #[trigger] Self::between(
                    slabs,
                    stretch,
                );
            assert(Self::clipped(slabs, ray_t, 3).covers(stretch));
        }
    }

    /// Widening the range can turn a miss into a hit, never a hit into a
    /// miss.
    pub proof fn lemma_entered_widens(slabs: [Slab; 3], narrow: Interval, wide: Interval)
        requires
            wide.covers(narrow),
            Self::entered(slabs, narrow),
        ensures
            Self::entered(slabs, wide),
    {
        reveal_with_fuel(Aabb::clipped, 4);
    }

    /// The box around some finite points is finite and holds each of them,
    /// and where there is a point at all it lies within every box that holds
    /// them all.
    pub proof fn lemma_bounding_is_least(points: Seq<Point3>, other: Aabb)
        requires
            forall|n: int| 0 <= n < points.len() ==> (#[trigger] points[n]).finite(),
        ensures
            Self::bounding(points).finite(),
            forall|n: int|
                0 <= n < points.len() ==> Self::bounding(points).holds(#[trigger] points[n]),
            points.len() > 0 && (forall|n: int|
                0 <= n < points.len() ==> other.holds(#[trigger] points[n])) ==> other.encloses(
                Self::bounding(points),
            ),
        decreases points.len(),
    {
        if points.len() > 0 {
            let rest = points.drop_last();
            let last = points.last();
            assert(last.finite());
            assert forall|n: int| 0 <= n < rest.len() implies (#[trigger] rest[n]).finite() by {
                assert(rest[n] == points[n]);
            }
            Self::lemma_bounding_is_least(rest, other);
            assert forall|n: int| 0 <= n < points.len() implies Self::bounding(points).holds(
                #[trigger] points[n],
            ) by {
                if n < rest.len() {
                    assert(rest[n] == points[n]);
                    assert(Self::bounding(rest).holds(rest[n]));
                }
            }
            if forall|n: int| 0 <= n < points.len() ==> other.holds(#[trigger] points[n]) {
                assert forall|n: int| 0 <= n < rest.len() implies other.holds(
                    #[trigger] rest[n],
                ) by {
                    assert(rest[n] == points[n]);
                }
                assert(other.holds(points[points.len() - 1]));
            }
        }
    }

    /// A box encloses both boxes it was united from, and every box that
    /// encloses both encloses their union.
    pub proof fn lemma_hull_is_least(a: Aabb, b: Aabb, c: Aabb)
        ensures
            Self::hull(a, b).encloses(a),
            Self::hull(a, b).encloses(b),
            c.encloses(a) && c.encloses(b) ==> c.encloses(Self::hull(a, b)),
    {
    }

    /// Uniting a finite box with the empty box changes nothing.
    pub proof fn lemma_hull_with_empty(a: Aabb)
        requires
            a.finite(),
        ensures
            Self::hull(Self::empty(), a) == a,
            Self::hull(a, Self::empty()) == a,
    {
    }

}

impl Default for Aabb {
    /// The empty box.
    fn default() -> (r: Self)
        ensures
            r == Aabb::empty(),
    {
        Aabb::empty()
    }
}

} // verus!

//! Hit records, the list of objects that is searched front to back, and what
//! it means for a search to find the nearest hit.

use vstd::prelude::*;
use crate::aabb::Aabb;
use crate::interval::Interval;
use crate::Point3;

verus! {

/// What a ray found: the rank `t` of the ray parameter at which it met an
/// object, and whatever the caller keeps about the place.
pub struct HitRecord<S> {
    pub t: i64,
    pub surface: S,
}

impl<S> HitRecord<S> {
    /// Whether a ray meets a surface from the front, and the normal that
    /// faces the ray. `dot` is the rank of the product of the ray's direction
    /// with the normal that points out of the surface: below zero, the ray
    /// runs against that normal and meets the front; else it meets the back,
    /// and the normal that faces it is the opposite one.
    pub fn face_normal(dot: i64, outward_normal: Point3) -> (r: (bool, Point3))
        ensures
            r.0 == (dot < 0),
            r.1 == if dot < 0 {
                outward_normal
            } else {
                outward_normal.opposite()
            },
    {
        let front_face = dot < 0;
        let normal = if front_face {
            outward_normal
        } else {
            outward_normal.negated()
        };

        (front_face, normal)
    }
}

/// Of the two places at which a ray's line meets a round surface, the one
/// that counts as the hit within `ray_t`: `near` where it lies within the
/// range, else `far` where that does, else neither.
pub open spec fn first_root(ray_t: Interval, near: i64, far: i64) -> Option<i64> {
    if ray_t.holds(near as int) {
        Some(near)
    } else if ray_t.holds(far as int) {
        Some(far)
    } else {
        None
    }
}

/// The hit within `ray_t` among the two places at which a ray's line meets a
/// round surface.
pub fn nearest_root(ray_t: Interval, near: i64, far: i64) -> (root: Option<i64>)
    ensures
        root == first_root(ray_t, near, far),
{
    let mut root = near;
    if !ray_t.contains(root) {
        root = far;
        if !ray_t.contains(root) {
            return None;
        }
    }
    Some(root)
}

/// With the two places in order, the hit is the least of them that lies
/// within the range, and there is none only where neither does.
pub proof fn lemma_first_root_is_least(ray_t: Interval, near: i64, far: i64)
    requires
        near <= far,
    ensures
        match first_root(ray_t, near, far) {
            Some(t) => {
                &&& ray_t.holds(t as int)
                &&& t == near || t == far
                &&& ray_t.holds(near as int) ==> t <= near
                &&& ray_t.holds(far as int) ==> t <= far
            },
            None => !ray_t.holds(near as int) && !ray_t.holds(far as int),
        },
{
}

/// The end of the range that is still worth searching once `found` is known.
pub open spec fn closest_so_far<S>(found: Option<HitRecord<S>>, ray_t: Interval) -> i64 {
    match found {
        Some(rec) => rec.t,
        None => ray_t.max,
    }
}

/// `ray_t` with its end pulled in to the hit that was found, if any.
pub open spec fn narrowed<S>(found: Option<HitRecord<S>>, ray_t: Interval) -> Interval {
    Interval { min: ray_t.min, max: closest_so_far(found, ray_t) }
}

/// The rank at which an answer places its hit.
pub open spec fn hit_rank<S>(rec: Option<HitRecord<S>>) -> Option<int> {
    match rec {
        Some(rec) => Some(rec.t as int),
        None => None,
    }
}

/// What a probe can answer: which hit, or none, it can come back with for
/// the object at a place of the list and a range.
pub open spec fn answers_of<S, P: Fn(usize, Interval) -> Option<HitRecord<S>>>(
    probe: P,
) -> spec_fn(usize, Interval, Option<HitRecord<S>>) -> bool {
    |i: usize, range: Interval, rec: Option<HitRecord<S>>| call_ensures(probe, (i, range), rec)
}

/// Whether `rec` can come out of searching the first `n` objects in order:
/// each object is probed over `ray_t` narrowed to the hit found among those
/// before it, and the last object that answers with a hit is the one
/// reported. `answers` tells what a probe can answer.
pub open spec fn scanned<S>(
    answers: spec_fn(usize, Interval, Option<HitRecord<S>>) -> bool,
    ray_t: Interval,
    n: nat,
    rec: Option<HitRecord<S>>,
) -> bool
    decreases n,
{
    if n == 0 {
        rec is None
    } else {
        exists|before: Option<HitRecord<S>>, here: Option<HitRecord<S>>|
            {
                &&& scanned(answers, ray_t, (n - 1) as nat, before)
                &&& #[trigger] answers((n - 1) as usize, narrowed(before, ray_t), here)
                &&& rec == if here is Some { here } else { before }
            }
    }
}

/// Whether `t` is where a ray first meets one of `objects` within `ray_t`.
/// `crossings` holds, for each object of a list, the ranks of the ray
/// parameter at which the ray meets it. `t` is none exactly when no object
/// is met within `ray_t`.
pub open spec fn nearest_among(
    crossings: spec_fn(usize) -> Set<int>,
    objects: Set<usize>,
    ray_t: Interval,
    t: Option<int>,
) -> bool {
    match t {
        None => forall|i: usize, u: int|
            objects.contains(i) && #[trigger] crossings(i).contains(u) ==> !ray_t.holds(u),
        Some(t) => {
            &&& ray_t.holds(t)
            &&& exists|i: usize| objects.contains(i) && #[trigger] crossings(i).contains(t)
            &&& forall|i: usize, u: int|
                objects.contains(i) && #[trigger] crossings(i).contains(u) && ray_t.holds(u)
                    ==> t <= u
        },
    }
}

/// Whether the probes answer for each of `objects` as a surface does: with
/// the first place within the range at which the ray meets the object, and
/// with none only where there is no such place.
pub open spec fn faithful<S>(
    answers: spec_fn(usize, Interval, Option<HitRecord<S>>) -> bool,
    crossings: spec_fn(usize) -> Set<int>,
    objects: Set<usize>,
) -> bool {
    forall|i: usize, range: Interval, rec: Option<HitRecord<S>>|
        objects.contains(i) && #[trigger] answers(i, range, rec) ==> nearest_among(
            crossings,
            set![i],
            range,
            hit_rank(rec),
        )
}

/// The first `n` places of a list.
pub open spec fn first(n: nat) -> Set<usize> {
    Set::new(|i: usize| i < n)
}

/// There is one nearest place at most.
pub proof fn lemma_nearest_is_unique(
    crossings: spec_fn(usize) -> Set<int>,
    objects: Set<usize>,
    ray_t: Interval,
    t: Option<int>,
    u: Option<int>,
)
    requires
        nearest_among(crossings, objects, ray_t, t),
        nearest_among(crossings, objects, ray_t, u),
    ensures
        t == u,
{
}

/// A search front to back finds the nearest hit: where every object answers
/// faithfully, what comes out of searching the first `n` is where the ray
/// first meets one of them within `ray_t`.
pub proof fn lemma_scan_finds_nearest<S>(
    answers: spec_fn(usize, Interval, Option<HitRecord<S>>) -> bool,
    crossings: spec_fn(usize) -> Set<int>,
    ray_t: Interval,
    n: nat,
    rec: Option<HitRecord<S>>,
)
    requires
        n <= usize::MAX,
        faithful(answers, crossings, first(n)),
        scanned(answers, ray_t, n, rec),
    ensures
        nearest_among(crossings, first(n), ray_t, hit_rank(rec)),
    decreases n,
{
    if n > 0 {
        let (before, here) = choose|before: Option<HitRecord<S>>, here: Option<HitRecord<S>>|
            {
                &&& scanned(answers, ray_t, (n - 1) as nat, before)
                &&& #[trigger] answers((n - 1) as usize, narrowed(before, ray_t), here)
                &&& rec == if here is Some { here } else { before }
            };
        let last = (n - 1) as usize;
        assert(first(n).contains(last));
        assert(faithful(answers, crossings, first((n - 1) as nat)));
        lemma_scan_finds_nearest(answers, crossings, ray_t, (n - 1) as nat, before);
        assert(nearest_among(crossings, set![last], narrowed(before, ray_t), hit_rank(here)));
        assert(set![last].contains(last));
        assert(forall|i: usize|
            first(n).contains(i) <==> first((n - 1) as nat).contains(i) || i == last);
        match here {
            Some(found) => {
                assert(crossings(last).contains(found.t as int));
            },
            None => {
                match before {
                    Some(earlier) => {
                        let i = choose|i: usize|
                            first((n - 1) as nat).contains(i) && #[trigger] crossings(i).contains(
                                earlier.t as int,
                            );
                        assert(first(n).contains(i));
                    },
                    None => {},
                }
            },
        }
    }
}

/// An ordered collection of objects with the box that encloses them all. The
/// list keeps each object together with the box it was added with.
pub struct HittableList<H> {
    objects: Vec<H>,
    boxes: Vec<Aabb>,
    bounding_box: Aabb,
}

impl<H> HittableList<H> {
    /// Whether the list holds one box for each object, and its own box
    /// encloses them all. Every list that this library hands out is so.
    pub closed spec fn well_formed(self) -> bool {
        &&& self.objects.len() == self.boxes.len()
        &&& forall|i: int|
            0 <= i < self.boxes.len() ==> self.bounding_box.encloses(#[trigger] self.boxes[i])
    }

    /// The objects, in the order in which they were added.
    pub closed spec fn contents(self) -> Seq<H> {
        self.objects@
    }

    /// The boxes of the objects, in the same order.
    pub closed spec fn bounds(self) -> Seq<Aabb> {
        self.boxes@
    }

    /// The box around the whole list.
    pub closed spec fn hull(self) -> Aabb {
        self.bounding_box
    }

    /// The list of one object. Its box is the object's, as long as that is
    /// finite.
    pub fn new(object: H, bounds: Aabb) -> (list: Self)
        ensures
            list.well_formed(),
            list.contents() == seq![object],
            list.bounds() == seq![bounds],
            list.hull() == Aabb::hull(Aabb::empty(), bounds),
            bounds.finite() ==> list.hull() == bounds,
    {
        let mut list = Self::default();
        list.add(object, bounds);
        proof {
            if bounds.finite() {
                Aabb::lemma_hull_with_empty(bounds);
            }
        }
        list
    }

    /// Appends an object and widens the list's box by the object's.
    pub fn add(&mut self, hittable_object: H, bounds: Aabb)
        ensures
            old(self).well_formed() ==> final(self).well_formed(),
            final(self).contents() == old(self).contents().push(hittable_object),
            final(self).bounds() == old(self).bounds().push(bounds),
            final(self).hull() == Aabb::hull(old(self).hull(), bounds),
    {
        let ghost before = self.boxes@;
        self.objects.push(hittable_object);
        self.boxes.push(bounds);
        self.bounding_box = Aabb::from_aabbs(&self.bounding_box, &bounds);
        proof {
            if old(self).well_formed() {
                assert forall|i: int| 0 <= i < self.boxes.len() implies self.bounding_box.encloses(
                    #[trigger] self.boxes[i],
                ) by {
                    if i < before.len() {
                        assert(self.boxes[i] == before[i]);
                    }
                }
            }
        }
    }

    /// Removes every object. The list's box stays as wide as it was.
    pub fn clear(&mut self)
        ensures
            final(self).well_formed(),
            final(self).contents() == Seq::<H>::empty(),
            final(self).bounds() == Seq::<Aabb>::empty(),
            final(self).hull() == old(self).hull(),
    {
        self.objects.clear();
        self.boxes.clear();
    }

    pub fn len(&self) -> (n: usize)
        ensures
            n == self.contents().len(),
    {
        self.objects.len()
    }

    /// A well-formed list has as many boxes as objects, and its box encloses
    /// each of them.
    pub proof fn lemma_well_formed(self)
        requires
            self.well_formed(),
        ensures
            self.bounds().len() == self.contents().len(),
            forall|i: int|
                0 <= i < self.bounds().len() ==> self.hull().encloses(#[trigger] self.bounds()[i]),
    {
    }

    pub fn objects(&self) -> (r: &Vec<H>)
        ensures
            r@ == self.contents(),
    {
        &self.objects
    }

    pub fn boxes(&self) -> (r: &Vec<Aabb>)
        ensures
            r@ == self.bounds(),
    {
        &self.boxes
    }

    /// The box around the whole list.
    pub fn bounding_box(&self) -> (r: &Aabb)
        ensures
            *r == self.hull(),
    {
        &self.bounding_box
    }

    /// The nearest hit in the list. Every object is probed in turn, by its
    /// place, over `ray_t` narrowed to the closest hit so far.
    pub fn hit<S, P: Fn(usize, Interval) -> Option<HitRecord<S>>>(
        &self,
        ray_t: Interval,
        probe: &P,
    ) -> (rec: Option<HitRecord<S>>)
        requires
            forall|i: usize, range: Interval|
                i < self.contents().len() ==> call_requires(*probe, (i, range)),
        ensures
            scanned(answers_of(*probe), ray_t, self.contents().len(), rec),
    {
        let count = self.objects.len();
        let mut found: Option<HitRecord<S>> = None;
        let mut closest_so_far: i64 = ray_t.max;
        let mut i: usize = 0;
        while i < count
            invariant
                i <= count,
                count == self.objects.len(),
                forall|k: usize, range: Interval| k < count ==> call_requires(*probe, (k, range)),
                scanned(answers_of(*probe), ray_t, i as nat, found),
                closest_so_far == self::closest_so_far(found, ray_t),
            decreases count - i,
        {
            let ghost before = found;
            let here = probe(i, Interval::new(ray_t.min, closest_so_far));
            let ghost answer = here;
            match here {
                Some(hitted_record) => {
                    closest_so_far = hitted_record.t;
                    found = Some(hitted_record);
                },
                None => {},
            }
            i += 1;
            proof {
                assert(answers_of(*probe)((i - 1) as usize, narrowed(before, ray_t), answer));
                assert(found == if answer is Some { answer } else { before });
            }
        }
        found
    }
}

impl<H> Default for HittableList<H> {
    /// The list without objects, in the empty box.
    fn default() -> (list: Self)
        ensures
            list.well_formed(),
            list.contents() == Seq::<H>::empty(),
            list.bounds() == Seq::<Aabb>::empty(),
            list.hull() == Aabb::empty(),
    {
        HittableList { objects: Vec::new(), boxes: Vec::new(), bounding_box: Aabb::empty() }
    }
}

} // verus!

//! A medium of constant density inside a boundary: where a ray runs through
//! it, and the hit that scattering inside it gives.

use vstd::prelude::*;
use crate::hittable::HitRecord;
use crate::interval::Interval;
use crate::rank::GREATEST;

verus! {

/// The greater of two ranks.
pub open spec fn upper(a: i64, b: i64) -> i64 {
    if a < b {
        b
    } else {
        a
    }
}

/// The lesser of two ranks.
pub open spec fn lower(a: i64, b: i64) -> i64 {
    if a > b {
        b
    } else {
        a
    }
}

/// The stretch of a ray that lies both inside a boundary, which the ray
/// enters at `entry` and leaves at `exit`, and within `ray_t`. There is none
/// where the two do not overlap in more than a point. Where the stretch would
/// begin behind the ray's origin, it begins at the origin.
pub open spec fn inside(entry: i64, exit: i64, ray_t: Interval) -> Option<Interval> {
    if upper(entry, ray_t.min) >= lower(exit, ray_t.max) {
        None
    } else {
        Some(Interval { min: upper(upper(entry, ray_t.min), 0), max: lower(exit, ray_t.max) })
    }
}

/// Whether `rec` can come out of a query of the medium over `ray_t`. The
/// boundary is probed over all finite ranks for the place where the ray
/// enters, then from just past that place for the place where it leaves;
/// `past` gives the rank just past another. The stretch between the two is
/// cut down to `ray_t`, and `scatter` decides whether and where the ray is
/// scattered on it. There is no hit where either probe has none, where
/// nothing is left of the stretch, or where `scatter` has none.
pub open spec fn medium_yields<
    S,
    P: Fn(Interval) -> Option<HitRecord<S>>,
    N: Fn(i64) -> i64,
    D: Fn(Interval) -> Option<HitRecord<S>>,
>(ray_t: Interval, probe: P, past: N, scatter: D, rec: Option<HitRecord<S>>) -> bool {
    ||| rec is None && call_ensures(probe, (Interval::universe(),), None)
    ||| exists|first: HitRecord<S>, from: i64|
        {
            &&& call_ensures(probe, (Interval::universe(),), Some(first))
            &&& #[trigger] call_ensures(past, (first.t,), from)
            &&& {
                ||| rec is None && call_ensures(
                    probe,
                    (Interval { min: from, max: GREATEST },),
                    None,
                )
                ||| exists|second: HitRecord<S>|
                    {
                        &&& #[trigger] call_ensures(
                            probe,
                            (Interval { min: from, max: GREATEST },),
                            Some(second),
                        )
                        &&& match inside(first.t, second.t, ray_t) {
                            None => rec is None,
                            Some(stretch) => call_ensures(scatter, (stretch,), rec),
                        }
                    }
            }
        }
}

/// What is left of the stretch inside a boundary lies within `ray_t`, and
/// between the places where the ray enters and leaves the boundary unless it
/// was moved up to the ray's origin.
pub proof fn lemma_inside_lies_within(entry: i64, exit: i64, ray_t: Interval)
    ensures
        inside(entry, exit, ray_t) matches Some(stretch) ==> {
            &&& ray_t.min <= stretch.min
            &&& stretch.max <= ray_t.max
            &&& stretch.max <= exit
            &&& entry <= stretch.min
            &&& stretch.min < stretch.max || stretch.min == 0
        },
{
}

/// A hit in the medium lies within `ray_t`, provided `scatter` places its
/// hits on the stretch it is given.
pub proof fn lemma_medium_hit_lies_within<
    S,
    P: Fn(Interval) -> Option<HitRecord<S>>,
    N: Fn(i64) -> i64,
    D: Fn(Interval) -> Option<HitRecord<S>>,
>(ray_t: Interval, probe: P, past: N, scatter: D, rec: HitRecord<S>)
    requires
        forall|stretch: Interval, found: HitRecord<S>|
            #[trigger] call_ensures(scatter, (stretch,), Some(found)) ==> stretch.holds(
                found.t as int,
            ),
        medium_yields(ray_t, probe, past, scatter, Some(rec)),
    ensures
        ray_t.holds(rec.t as int),
        rec.t >= 0,
{
    let (first, from) = choose|first: HitRecord<S>, from: i64|
        {
            &&& call_ensures(probe, (Interval::universe(),), Some(first))
            &&& #[trigger] call_ensures(past, (first.t,), from)
            &&& exists|second: HitRecord<S>|
                {
                    &&& #[trigger] call_ensures(
                        probe,
                        (Interval { min: from, max: GREATEST },),
                        Some(second),
                    )
                    &&& match inside(first.t, second.t, ray_t) {
                        None => false,
                        Some(stretch) => call_ensures(scatter, (stretch,), Some(rec)),
                    }
                }
        };
    let second = choose|second: HitRecord<S>|
        {
            &&& #[trigger] call_ensures(
                probe,
                (Interval { min: from, max: GREATEST },),
                Some(second),
            )
            &&& match inside(first.t, second.t, ray_t) {
                None => false,
                Some(stretch) => call_ensures(scatter, (stretch,), Some(rec)),
            }
        };
    let stretch = inside(first.t, second.t, ray_t)->0;
    assert(call_ensures(scatter, (stretch,), Some(rec)));
    assert(stretch.holds(rec.t as int));
}

/// The stretch of a ray that lies both inside a boundary and within `ray_t`.
pub fn segment(entry: i64, exit: i64, ray_t: Interval) -> (stretch: Option<Interval>)
    ensures
        stretch == inside(entry, exit, ray_t),
{
    let mut t1 = entry;
    let mut t2 = exit;
    if t1 < ray_t.min {
        t1 = ray_t.min;
    }
    if t2 > ray_t.max {
        t2 = ray_t.max;
    }
    if t1 >= t2 {
        return None;
    }
    if t1 < 0 {
        t1 = 0;
    }
    Some(Interval::new(t1, t2))
}

/// The hit of a ray in the medium within `ray_t`, if it is scattered there.
/// `probe` asks the boundary for its hit within a range, `past` gives the
/// rank just past another, and `scatter` draws how far the ray gets on a
/// stretch inside the medium: it answers with the hit at that place, or with
/// none where the ray gets through.
pub fn hit<
    S,
    P: Fn(Interval) -> Option<HitRecord<S>>,
    N: Fn(i64) -> i64,
    D: Fn(Interval) -> Option<HitRecord<S>>,
>(ray_t: Interval, probe: &P, past: &N, scatter: &D) -> (rec: Option<HitRecord<S>>)
    requires
        forall|range: Interval| call_requires(*probe, (range,)),
        forall|t: i64| call_requires(*past, (t,)),
        forall|range: Interval| call_requires(*scatter, (range,)),
    ensures
        medium_yields(ray_t, *probe, *past, *scatter, rec),
{
    let hit_record_1 = match probe(Interval::universe()) {
        Some(hitted_record) => hitted_record,
        None => {
            return None;
        },
    };
    let from = past(hit_record_1.t);
    let hit_record_2 = match probe(Interval::new(from, GREATEST)) {
        Some(hitted_record) => hitted_record,
        None => {
            assert(call_ensures(*past, (hit_record_1.t,), from));
            return None;
        },
    };
    let rec = match segment(hit_record_1.t, hit_record_2.t, ray_t) {
        Some(stretch) => scatter(stretch),
        None => None,
    };
    assert(call_ensures(*past, (hit_record_1.t,), from));
    assert(call_ensures(*probe, (Interval { min: from, max: GREATEST },), Some(hit_record_2)));
    rec
}

} // verus!

use ray_tracer::aabb::{Aabb, Slab};
use ray_tracer::interval::Interval;
use ray_tracer::Point3;

fn rank(x: f64) -> i64 {
    ray_tracer::rank::rank(x.to_bits())
}

fn slab_of(min: f64, max: f64, origin: f64, direction: f64) -> Slab {
    let inv_d = 1.0 / direction;
    Slab { t0: rank((min - origin) * inv_d), t1: rank((max - origin) * inv_d), reversed: inv_d < 0.0 }
}

fn slabs_of(low: [f64; 3], high: [f64; 3], origin: [f64; 3], direction: [f64; 3]) -> [Slab; 3] {
    [
        slab_of(low[0], high[0], origin[0], direction[0]),
        slab_of(low[1], high[1], origin[1], direction[1]),
        slab_of(low[2], high[2], origin[2], direction[2]),
    ]
}

#[test]
fn interval_new_keeps_its_bounds() {
    let interval = Interval::new(3, 9);
    assert_eq!(interval.min, 3);
    assert_eq!(interval.max, 9);
    assert_eq!(interval, Interval { min: 3, max: 9 });
}

#[test]
fn interval_contains_includes_both_ends() {
    let interval = Interval::new(-2, 5);
    assert!(interval.contains(-2));
    assert!(interval.contains(5));
    assert!(interval.contains(0));
    assert!(!interval.contains(-3));
    assert!(!interval.contains(6));
}

#[test]
fn interval_clamp_moves_to_the_nearer_end() {
    let interval = Interval::new(-2, 5);
    assert_eq!(interval.clamp(-7), -2);
    assert_eq!(interval.clamp(9), 5);
    assert_eq!(interval.clamp(3), 3);
    assert_eq!(interval.clamp(-2), -2);
    assert_eq!(interval.clamp(5), 5);
}

#[test]
fn empty_interval_holds_nothing_and_universe_everything_finite() {
    let empty = Interval::empty();
    let universe = Interval::universe();
    assert_eq!(empty, Interval { min: rank(f64::MAX), max: rank(-f64::MAX) });
    assert_eq!(universe, Interval { min: rank(-f64::MAX), max: rank(f64::MAX) });
    assert_eq!(Interval::default(), empty);
    for x in [-f64::MAX, -1.0, 0.0, 1.0e-300, 1.0, f64::MAX] {
        assert!(!empty.contains(rank(x)));
        assert!(universe.contains(rank(x)));
    }
    for x in [f64::NEG_INFINITY, f64::INFINITY, f64::NAN] {
        assert!(!empty.contains(rank(x)));
        assert!(!universe.contains(rank(x)));
    }
}

#[test]
fn interval_union_covers_both() {
    let a = Interval::new(-4, 2);
    let b = Interval::new(0, 7);
    assert_eq!(Interval::from_intervals(&a, &b), Interval::new(-4, 7));
    assert_eq!(Interval::from_intervals(&b, &a), Interval::new(-4, 7));
    let c = Interval::new(10, 12);
    assert_eq!(Interval::from_intervals(&a, &c), Interval::new(-4, 12));
    assert_eq!(Interval::from_intervals(&Interval::empty(), &a), a);
    assert_eq!(Interval::from_intervals(&a, &Interval::empty()), a);
}

#[test]
fn box_from_points_takes_corners_either_way_round() {
    let a = Point3 { x: 1, y: 8, z: -3 };
    let b = Point3 { x: 4, y: 2, z: -9 };
    let expected = Aabb::new(Interval::new(1, 4), Interval::new(2, 8), Interval::new(-9, -3));
    assert_eq!(Aabb::from_points(&a, &b), expected);
    assert_eq!(Aabb::from_points(&b, &a), expected);
    let flat = Aabb::from_points(&a, &a);
    assert_eq!(flat, Aabb::new(Interval::new(1, 1), Interval::new(8, 8), Interval::new(-3, -3)));
}

#[test]
fn box_union_and_axes() {
    let a = Aabb::new(Interval::new(0, 1), Interval::new(0, 1), Interval::new(0, 1));
    let b = Aabb::new(Interval::new(5, 6), Interval::new(-3, 0), Interval::new(1, 2));
    let both = Aabb::from_aabbs(&a, &b);
    assert_eq!(both, Aabb::new(Interval::new(0, 6), Interval::new(-3, 1), Interval::new(0, 2)));
    assert_eq!(*both.axis(0), Interval::new(0, 6));
    assert_eq!(*both.axis(1), Interval::new(-3, 1));
    assert_eq!(*both.axis(2), Interval::new(0, 2));
    assert_eq!(*both.axis(3), Interval::new(0, 6));
    assert_eq!(Aabb::from_aabbs(&Aabb::empty(), &b), b);
    assert_eq!(Aabb::default(), Aabb::empty());
    assert_eq!(Aabb::empty().x, Interval::empty());
}

#[test]
fn ray_through_the_box_hits() {
    let slabs = slabs_of([-1.0; 3], [1.0; 3], [0.0, 0.0, 5.0], [0.1, 0.05, -1.0]);
    assert!(Aabb::hit(&slabs, Interval::new(rank(0.001), rank(f64::MAX))));
}

#[test]
fn ray_beside_the_box_misses() {
    let slabs = slabs_of([-1.0; 3], [1.0; 3], [3.0, 0.0, 5.0], [0.0, 0.0, -1.0]);
    assert!(!Aabb::hit(&slabs, Interval::new(rank(0.001), rank(f64::MAX))));
}

#[test]
fn ray_stopping_short_of_the_box_misses() {
    // The box is entered at t = 4 and left at t = 6.
    let slabs = slabs_of([-1.0; 3], [1.0; 3], [0.0, 0.0, 5.0], [0.0, 0.0, -1.0]);
    assert!(!Aabb::hit(&slabs, Interval::new(rank(0.001), rank(3.9))));
    assert!(!Aabb::hit(&slabs, Interval::new(rank(0.001), rank(4.0))));
    assert!(Aabb::hit(&slabs, Interval::new(rank(0.001), rank(4.1))));
    assert!(!Aabb::hit(&slabs, Interval::new(rank(6.0), rank(100.0))));
    assert!(Aabb::hit(&slabs, Interval::new(rank(5.9), rank(100.0))));
}

#[test]
fn slab_test_narrows_axis_by_axis() {
    // x leaves [0, 5], y leaves [4, 9], z leaves [1, 8]: together [4, 5].
    let slabs = [
        Slab { t0: 0, t1: 5, reversed: false },
        Slab { t0: 9, t1: 4, reversed: true },
        Slab { t0: 1, t1: 8, reversed: false },
    ];
    assert!(Aabb::hit(&slabs, Interval::new(-100, 100)));
    assert!(Aabb::hit(&slabs, Interval::new(4, 5)));
    assert!(!Aabb::hit(&slabs, Interval::new(5, 100)));
    assert!(!Aabb::hit(&slabs, Interval::new(-100, 4)));
    // Each axis alone overlaps the range, but the three have no stretch in common.
    let apart = [
        Slab { t0: 0, t1: 3, reversed: false },
        Slab { t0: 3, t1: 6, reversed: false },
        Slab { t0: 0, t1: 6, reversed: false },
    ];
    assert!(!Aabb::hit(&apart, Interval::new(-100, 100)));
    let further_apart = [
        Slab { t0: 0, t1: 3, reversed: false },
        Slab { t0: 0, t1: 6, reversed: false },
        Slab { t0: 4, t1: 6, reversed: false },
    ];
    assert!(!Aabb::hit(&further_apart, Interval::new(-100, 100)));
}

#[test]
fn widening_the_range_never_loses_a_hit() {
    let slabs = [
        Slab { t0: 2, t1: 12, reversed: false },
        Slab { t0: 15, t1: 5, reversed: true },
        Slab { t0: 0, t1: 9, reversed: false },
    ];
    for min in -3..14 {
        for max in -3..14 {
            if Aabb::hit(&slabs, Interval::new(min, max)) {
                assert!(Aabb::hit(&slabs, Interval::new(min - 1, max)));
                assert!(Aabb::hit(&slabs, Interval::new(min, max + 1)));
                assert!(Aabb::hit(&slabs, Interval::universe()));
            }
            assert_eq!(
                Aabb::hit(&slabs, Interval::new(min, max)),
                min.max(5) < max.min(9)
            );
        }
    }
}

#[test]
fn ray_along_an_axis_relies_on_unbounded_slabs() {
    // A direction component of zero gives slab times at the two infinities.
    let slabs = slabs_of([-1.0; 3], [1.0; 3], [0.5, -0.5, 5.0], [0.0, 0.0, -1.0]);
    assert_eq!(slabs[0].t0, rank(f64::NEG_INFINITY));
    assert_eq!(slabs[0].t1, rank(f64::INFINITY));
    assert!(Aabb::hit(&slabs, Interval::new(rank(0.001), rank(f64::MAX))));
    let outside = slabs_of([-1.0; 3], [1.0; 3], [1.5, -0.5, 5.0], [0.0, 0.0, -1.0]);
    assert!(!Aabb::hit(&outside, Interval::new(rank(0.001), rank(f64::MAX))));
}

#[test]
fn corners_are_listed_by_their_ends() {
    let bounds = Aabb::new(Interval::new(1, 2), Interval::new(10, 20), Interval::new(100, 200));
    let corners = bounds.corners();
    assert_eq!(corners[0], Point3 { x: 1, y: 10, z: 100 });
    assert_eq!(corners[1], Point3 { x: 1, y: 10, z: 200 });
    assert_eq!(corners[2], Point3 { x: 1, y: 20, z: 100 });
    assert_eq!(corners[3], Point3 { x: 1, y: 20, z: 200 });
    assert_eq!(corners[4], Point3 { x: 2, y: 10, z: 100 });
    assert_eq!(corners[5], Point3 { x: 2, y: 10, z: 200 });
    assert_eq!(corners[6], Point3 { x: 2, y: 20, z: 100 });
    assert_eq!(corners[7], Point3 { x: 2, y: 20, z: 200 });
}

#[test]
fn box_around_points_is_the_smallest_that_holds_them() {
    let points = vec![
        Point3 { x: 3, y: -1, z: 0 },
        Point3 { x: -2, y: 5, z: 0 },
        Point3 { x: 0, y: 0, z: 9 },
    ];
    assert_eq!(
        Aabb::around(&points),
        Aabb::new(Interval::new(-2, 3), Interval::new(-1, 5), Interval::new(0, 9))
    );
    assert_eq!(
        Aabb::around(&points[..1].to_vec()),
        Aabb::new(Interval::new(3, 3), Interval::new(-1, -1), Interval::new(0, 0))
    );
    assert_eq!(Aabb::around(&Vec::new()), Aabb::empty());
}

#[test]
fn box_around_its_own_corners_is_the_box() {
    let bounds = Aabb::new(Interval::new(-7, 2), Interval::new(0, 20), Interval::new(5, 6));
    assert_eq!(Aabb::around(&bounds.corners().to_vec()), bounds);
}

#[test]
fn quarter_turn_about_y_swaps_the_sides_of_a_box() {
    // Turning each corner a quarter about the y axis, as a caller does it on numbers with
    // fractions, and putting a box around the turned corners.
    let bounds = Aabb::new(
        Interval::new(rank(1.0), rank(2.0)),
        Interval::new(rank(-1.0), rank(1.0)),
        Interval::new(rank(10.0), rank(30.0)),
    );
    let unrank = |r: i64| f64::from_bits(ray_tracer::rank::unrank(r));
    let (sin_theta, cos_theta) = (1.0, 0.0);
    let turned: Vec<Point3> = bounds
        .corners()
        .iter()
        .map(|corner| {
            let (x, y, z) = (unrank(corner.x), unrank(corner.y), unrank(corner.z));
            Point3 {
                x: rank(cos_theta * x + sin_theta * z),
                y: rank(y),
                z: rank(-sin_theta * x + cos_theta * z),
            }
        })
        .collect();
    assert_eq!(
        Aabb::around(&turned),
        Aabb::new(
            Interval::new(rank(10.0), rank(30.0)),
            Interval::new(rank(-1.0), rank(1.0)),
            Interval::new(rank(-2.0), rank(-1.0)),
        )
    );
}

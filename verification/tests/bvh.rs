use ray_tracer::aabb::Aabb;
use ray_tracer::bvh::{Bvh, BvhChild};
use ray_tracer::hittable::{nearest_root, HitRecord, HittableList};
use ray_tracer::interval::Interval;
use std::cell::Cell;

fn slab(x: (i64, i64), y: (i64, i64), z: (i64, i64)) -> Aabb {
    Aabb::new(Interval::new(x.0, x.1), Interval::new(y.0, y.1), Interval::new(z.0, z.1))
}

fn leaves_of_child(child: &BvhChild, out: &mut Vec<usize>) {
    match child {
        BvhChild::Object(i) => out.push(*i),
        BvhChild::Node(node) => leaves_of(node, out),
    }
}

fn leaves_of(tree: &Bvh, out: &mut Vec<usize>) {
    leaves_of_child(&tree.left, out);
    leaves_of_child(&tree.right, out);
}

fn sorted_leaves(tree: &Bvh) -> Vec<usize> {
    let mut out = Vec::new();
    leaves_of(tree, &mut out);
    out.sort();
    out.dedup();
    out
}

fn bounds_of(child: &BvhChild, boxes: &[Aabb]) -> Aabb {
    match child {
        BvhChild::Object(i) => boxes[*i],
        BvhChild::Node(node) => node.bounding_box,
    }
}

/// Checks that each node's box is the union of its sides' boxes.
fn check_boxes(tree: &Bvh, boxes: &[Aabb]) {
    let expected = Aabb::from_aabbs(&bounds_of(&tree.left, boxes), &bounds_of(&tree.right, boxes));
    assert_eq!(tree.bounding_box, expected);
    for child in [&tree.left, &tree.right] {
        if let BvhChild::Node(node) = child {
            check_boxes(node, boxes);
        }
    }
}

/// Checks the median split with x as the only axis: sizes, and that nothing on
/// the left lies above anything on the right.
fn check_split_along_x(tree: &Bvh, boxes: &[Aabb]) -> usize {
    match (&tree.left, &tree.right) {
        (BvhChild::Object(a), BvhChild::Object(b)) => {
            if a == b {
                1
            } else {
                assert!(boxes[*a].x.min <= boxes[*b].x.min);
                2
            }
        }
        (BvhChild::Node(l), BvhChild::Node(r)) => {
            let left = check_split_along_x(l, boxes);
            let right = check_split_along_x(r, boxes);
            assert!(left + right >= 3);
            assert_eq!(left, (left + right) / 2);
            let mut low = Vec::new();
            leaves_of(l, &mut low);
            let mut high = Vec::new();
            leaves_of(r, &mut high);
            for a in &low {
                for b in &high {
                    assert!(a != b);
                    assert!(boxes[*a].x.min <= boxes[*b].x.min);
                }
            }
            left + right
        }
        _ => panic!("a node has two objects or two nodes as sides"),
    }
}

fn height_of(tree: &Bvh) -> u32 {
    let below = |child: &BvhChild| match child {
        BvhChild::Object(_) => 0,
        BvhChild::Node(node) => height_of(node),
    };
    1 + below(&tree.left).max(below(&tree.right))
}

/// A ray along x: it enters a box where the two ranges meet on x.
fn enters_along_x(bounds: &Aabb, range: Interval) -> bool {
    bounds.x.min.max(range.min) <= bounds.x.max.min(range.max)
}

/// A small generator of scattered numbers for scenes.
struct Scatter(u64);

impl Scatter {
    fn next(&mut self, below: i64) -> i64 {
        self.0 = self.0.wrapping_mul(6364136223846793005).wrapping_add(1442695040888963407);
        ((self.0 >> 33) % (below as u64)) as i64
    }
}

#[test]
fn tree_over_one_object_has_it_on_both_sides() {
    let boxes = vec![slab((1, 2), (3, 4), (5, 6))];
    let tree = Bvh::with_axes(&boxes, 0, 1, &|| 0);
    assert!(matches!(tree.left, BvhChild::Object(0)));
    assert!(matches!(tree.right, BvhChild::Object(0)));
    assert_eq!(tree.bounding_box, boxes[0]);
    assert_eq!(*tree.bounding_box(), boxes[0]);
}

#[test]
fn tree_over_two_objects_orders_them_along_the_axis() {
    let boxes = vec![slab((5, 6), (0, 1), (7, 8)), slab((2, 3), (4, 5), (7, 9))];
    let along_x = Bvh::with_axes(&boxes, 0, 2, &|| 0);
    assert!(matches!(along_x.left, BvhChild::Object(1)));
    assert!(matches!(along_x.right, BvhChild::Object(0)));
    let along_y = Bvh::with_axes(&boxes, 0, 2, &|| 1);
    assert!(matches!(along_y.left, BvhChild::Object(0)));
    assert!(matches!(along_y.right, BvhChild::Object(1)));
    // Equal along z: the second comes first unless the first lies strictly below it.
    let along_z = Bvh::with_axes(&boxes, 0, 2, &|| 2);
    assert!(matches!(along_z.left, BvhChild::Object(1)));
    assert!(matches!(along_z.right, BvhChild::Object(0)));
    assert_eq!(along_x.bounding_box, slab((2, 6), (0, 5), (7, 9)));
}

#[test]
fn any_other_choice_stands_for_z() {
    let boxes = vec![slab((0, 1), (0, 1), (9, 9)), slab((5, 6), (5, 6), (3, 4))];
    for choice in [2, 3, -1, 100] {
        let tree = Bvh::with_axes(&boxes, 0, 2, &move || choice);
        assert!(matches!(tree.left, BvhChild::Object(1)));
        assert!(matches!(tree.right, BvhChild::Object(0)));
    }
}

#[test]
fn tree_over_three_objects_splits_one_against_two() {
    let boxes = vec![slab((30, 31), (0, 1), (0, 1)), slab((10, 11), (0, 1), (0, 1)), slab((20, 21), (0, 1), (0, 1))];
    let tree = Bvh::with_axes(&boxes, 0, 3, &|| 0);
    let BvhChild::Node(left) = &tree.left else { panic!("the left side is a node") };
    let BvhChild::Node(right) = &tree.right else { panic!("the right side is a node") };
    assert!(matches!(left.left, BvhChild::Object(1)));
    assert!(matches!(left.right, BvhChild::Object(1)));
    assert!(matches!(right.left, BvhChild::Object(2)));
    assert!(matches!(right.right, BvhChild::Object(0)));
    assert_eq!(left.bounding_box, boxes[1]);
    assert_eq!(right.bounding_box, slab((20, 31), (0, 1), (0, 1)));
    assert_eq!(tree.bounding_box, slab((10, 31), (0, 1), (0, 1)));
}

#[test]
fn tree_sorts_objects_given_in_falling_order() {
    let n = 37;
    let boxes: Vec<Aabb> =
        (0..n).map(|i| slab((1000 - 10 * i, 1005 - 10 * i), (i, i + 1), (0, 1))).collect();
    let tree = Bvh::with_axes(&boxes, 0, boxes.len(), &|| 0);
    assert_eq!(check_split_along_x(&tree, &boxes), boxes.len());
    assert_eq!(sorted_leaves(&tree), (0..boxes.len()).collect::<Vec<_>>());
    check_boxes(&tree, &boxes);
    assert_eq!(tree.bounding_box, slab((640, 1005), (0, 37), (0, 1)));
}

#[test]
fn tree_is_as_low_as_halving_allows() {
    for n in 1..200usize {
        let boxes: Vec<Aabb> = (0..n as i64)
            .map(|i| slab((i * 37 % 101, i * 37 % 101 + 2), (i, i + 1), (-i, 0)))
            .collect();
        let tree = Bvh::new(&boxes, 0, n);
        let height = height_of(&tree);
        if height >= 2 {
            assert!(n > 1 << (height - 1));
        } else {
            assert!(n <= 2);
        }
    }
    let boxes: Vec<Aabb> = (0..1024).map(|i| slab((i, i), (i, i), (i, i))).collect();
    assert_eq!(height_of(&Bvh::new(&boxes, 0, 1024)), 10);
    assert_eq!(height_of(&Bvh::new(&boxes, 0, 1023)), 10);
    assert_eq!(height_of(&Bvh::new(&boxes, 0, 513)), 10);
    assert_eq!(height_of(&Bvh::new(&boxes, 0, 512)), 9);
}

#[test]
fn tree_over_part_of_a_list_holds_that_part() {
    let boxes: Vec<Aabb> = (0..8).map(|i| slab((7 * i % 5, 7 * i % 5 + 1), (i, i), (-i, i))).collect();
    let tree = Bvh::with_axes(&boxes, 2, 5, &|| 0);
    assert_eq!(sorted_leaves(&tree), vec![2, 3, 4]);
    assert_eq!(check_split_along_x(&tree, &boxes), 3);
    check_boxes(&tree, &boxes);
    let last = Bvh::new(&boxes, 7, 8);
    assert_eq!(sorted_leaves(&last), vec![7]);
}

#[test]
fn tree_with_random_axes_holds_every_object_once() {
    let mut scatter = Scatter(7);
    for n in 1..40usize {
        let boxes: Vec<Aabb> = (0..n)
            .map(|_| {
                let (x, y, z) = (scatter.next(100), scatter.next(100), scatter.next(100));
                slab((x, x + scatter.next(9)), (y, y + scatter.next(9)), (z, z + scatter.next(9)))
            })
            .collect();
        let tree = Bvh::new(&boxes, 0, n);
        assert_eq!(sorted_leaves(&tree), (0..n).collect::<Vec<_>>());
        check_boxes(&tree, &boxes);
        let all = boxes.iter().fold(Aabb::empty(), |sum, b| Aabb::from_aabbs(&sum, b));
        assert_eq!(tree.bounding_box, all);
    }
}

#[test]
fn tree_from_list_covers_the_list() {
    let mut list = HittableList::default();
    for i in 0..9i64 {
        list.add(i, slab((i * 3 % 7, i * 3 % 7 + 2), (i, i + 1), (0, i)));
    }
    let tree = Bvh::from_list(&list);
    assert_eq!(sorted_leaves(&tree), (0..9).collect::<Vec<_>>());
    check_boxes(&tree, list.boxes());
    assert_eq!(tree.bounding_box, *list.bounding_box());
}

#[test]
fn tree_prunes_what_the_ray_does_not_enter() {
    let boxes: Vec<Aabb> = (0..16).map(|i| slab((10 * i, 10 * i + 5), (0, 1), (0, 1))).collect();
    let tree = Bvh::with_axes(&boxes, 0, boxes.len(), &|| 0);
    let probes = Cell::new(0);
    let probe = |i: usize, range: Interval| {
        probes.set(probes.get() + 1);
        nearest_root(range, 10 * i as i64, 10 * i as i64 + 5).map(|t| HitRecord { t, surface: i })
    };
    assert!(tree.hit(Interval::new(200, 300), &enters_along_x, &probe).is_none());
    assert_eq!(probes.get(), 0);
    let rec = tree.hit(Interval::new(42, 300), &enters_along_x, &probe).unwrap();
    assert_eq!((rec.t, rec.surface), (45, 4));
    assert!(probes.get() < 16);
}

#[test]
fn tree_asks_the_right_side_only_up_to_the_left_hit() {
    let boxes = vec![slab((10, 20), (0, 1), (0, 1)), slab((30, 40), (0, 1), (0, 1))];
    let tree = Bvh::with_axes(&boxes, 0, 2, &|| 0);
    let asked = std::cell::RefCell::new(Vec::new());
    let probe = |i: usize, range: Interval| {
        asked.borrow_mut().push((i, range.min, range.max));
        nearest_root(range, boxes[i].x.min, boxes[i].x.max).map(|t| HitRecord { t, surface: i })
    };
    let always = |_: &Aabb, _: Interval| true;
    let rec = tree.hit(Interval::new(0, 100), &always, &probe).unwrap();
    assert_eq!((rec.t, rec.surface), (10, 0));
    assert_eq!(*asked.borrow(), vec![(0, 0, 100), (1, 0, 10)]);
    asked.borrow_mut().clear();
    let rec = tree.hit(Interval::new(25, 100), &always, &probe).unwrap();
    assert_eq!((rec.t, rec.surface), (30, 1));
    assert_eq!(*asked.borrow(), vec![(0, 25, 100), (1, 25, 100)]);
}

#[test]
fn tree_finds_what_a_search_of_the_list_finds() {
    let mut scatter = Scatter(2024);
    for round in 0..60usize {
        let n = 1 + round % 30;
        let mut pairs = Vec::new();
        let mut list = HittableList::default();
        for i in 0..n {
            let near = scatter.next(1000);
            let far = near + scatter.next(60);
            let (y, z) = (scatter.next(50), scatter.next(50));
            pairs.push((near, far));
            list.add(i, slab((near, far), (y, y + 3), (z, z + 3)));
        }
        let tree = Bvh::from_list(&list);
        let probe = |i: usize, range: Interval| {
            nearest_root(range, pairs[i].0, pairs[i].1).map(|t| HitRecord { t, surface: i })
        };
        for _ in 0..40 {
            let min = scatter.next(1100) - 50;
            let max = min + scatter.next(400) - 20;
            let range = Interval::new(min, max);
            let from_tree = tree.hit(range, &enters_along_x, &probe).map(|rec| rec.t);
            let from_list = list.hit(range, &probe).map(|rec| rec.t);
            assert_eq!(from_tree, from_list);
            let expected = pairs
                .iter()
                .flat_map(|pair| [pair.0, pair.1])
                .filter(|t| range.contains(*t))
                .min();
            assert_eq!(from_list, expected);
        }
    }
}

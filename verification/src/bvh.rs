//! The bounding-volume hierarchy: a binary tree over the objects of a list
//! that lets a ray skip whole groups of them.

use vstd::prelude::*;
use crate::aabb::Aabb;
use crate::hittable::{
    answers_of, faithful, first, hit_rank, lemma_nearest_is_unique, lemma_scan_finds_nearest,
    narrowed, nearest_among, scanned, HitRecord, HittableList,
};
use crate::interval::Interval;
use crate::random_isize_range;

verus! {

/// One side of a node: an object, named by its place in the list the tree
/// was built from, or a further node.
pub enum BvhChild {
    Object(usize),
    Node(Box<Bvh>),
}

/// A node of the hierarchy. It always has two sides; over a single object both
/// sides are that object.
pub struct Bvh {
    pub left: BvhChild,
    pub right: BvhChild,
    pub bounding_box: Aabb,
}

/// The later of two answers: `second` where it is a hit, else `first`.
pub open spec fn later<S>(first: Option<HitRecord<S>>, second: Option<HitRecord<S>>) -> Option<
    HitRecord<S>,
> {
    if second is Some {
        second
    } else {
        first
    }
}

/// An object of the list together with the rank it is ordered by.
#[derive(Clone, Copy)]
struct Keyed {
    key: i64,
    object: usize,
}

/// Calls `sort_unstable_by_key` of std's slices, with the rank of each item as
/// its key. std documents that the slice ends up in ascending order of the
/// keys and that the items are only moved about, none added and none dropped;
/// where two keys are equal, which item comes first is left open.
#[verifier::external_body]
fn sort_by_key(items: &mut Vec<Keyed>)
    ensures
        final(items)@.to_multiset() == old(items)@.to_multiset(),
        forall|i: int, j: int|
            0 <= i <= j < final(items)@.len() ==> final(items)@[i].key <= final(items)@[j].key,
{
    items.sort_unstable_by_key(|item| item.key);
}

/// What reordering keeps: the same items, each once.
proof fn lemma_reordered(before: Seq<Keyed>, after: Seq<Keyed>)
    requires
        after.to_multiset() == before.to_multiset(),
        forall|i: int, j: int|
            0 <= i < j < before.len() ==> before[i].object != before[j].object,
    ensures
        after.len() == before.len(),
        forall|k: int| 0 <= k < after.len() ==> before.contains(#[trigger] after[k]),
        forall|k: int| 0 <= k < before.len() ==> after.contains(#[trigger] before[k]),
        forall|i: int, j: int| 0 <= i < j < after.len() ==> after[i].object != after[j].object,
{
    before.to_multiset_ensures();
    after.to_multiset_ensures();
    assert(before.no_duplicates());
    before.lemma_multiset_has_no_duplicates();
    after.lemma_multiset_has_no_duplicates_conv();
    assert forall|k: int| 0 <= k < after.len() implies before.contains(#[trigger] after[k]) by {
        assert(after.contains(after[k]));
        vstd::seq_lib::to_multiset_contains(after, after[k]);
        vstd::seq_lib::to_multiset_contains(before, after[k]);
    }
    assert forall|k: int| 0 <= k < before.len() implies after.contains(#[trigger] before[k]) by {
        assert(before.contains(before[k]));
        vstd::seq_lib::to_multiset_contains(before, before[k]);
        vstd::seq_lib::to_multiset_contains(after, before[k]);
    }
    assert forall|i: int, j: int| 0 <= i < j < after.len() implies after[i].object
        != after[j].object by {
        assert(before.contains(after[i]));
        assert(before.contains(after[j]));
        let a = choose|a: int| 0 <= a < before.len() && before[a] == after[i];
        let b = choose|b: int| 0 <= b < before.len() && before[b] == after[j];
        if after[i].object == after[j].object {
            assert(a == b);
            assert(after[i] == after[j]);
        }
    }
}

/// Two to the power of `e`.
pub open spec fn power_of_two(e: nat) -> nat
    decreases e,
{
    if e == 0 {
        1
    } else {
        2 * power_of_two((e - 1) as nat)
    }
}

/// The axis that a choice stands for: 0 is x, 1 is y, anything else z.
pub open spec fn axis_of(choice: isize) -> int {
    if choice == 0 {
        0
    } else if choice == 1 {
        1
    } else {
        2
    }
}

/// The axes that `pick_axis` can come up with.
pub open spec fn axes_of<A: Fn() -> isize>(pick_axis: A) -> Set<int> {
    Set::new(
        |axis: int|
            exists|choice: isize| call_ensures(pick_axis, (), choice) && axis == axis_of(choice),
    )
}

/// The rank by which an object is ordered along an axis: the low end of its
/// box there.
pub open spec fn key_of(boxes: Seq<Aabb>, object: usize, axis: int) -> i64 {
    boxes[object as int].side(axis).min
}

/// Two objects in the order in which a node holds them: as given where the
/// first lies strictly below the second along `axis`, the other way round
/// where it does not.
pub open spec fn in_order(boxes: Seq<Aabb>, a: usize, b: usize, axis: int) -> (usize, usize) {
    if key_of(boxes, a, axis) < key_of(boxes, b, axis) {
        (a, b)
    } else {
        (b, a)
    }
}

/// Whether, along `axis`, no object of `low` lies above an object of `high`.
pub open spec fn ordered_along(
    boxes: Seq<Aabb>,
    low: Set<usize>,
    high: Set<usize>,
    axis: int,
) -> bool {
    forall|a: usize, b: usize|
        low.contains(a) && high.contains(b) ==> key_of(boxes, a, axis) <= key_of(boxes, b, axis)
}

/// What a box test can answer: whether it can come back with `entered` for a
/// box and a range.
pub open spec fn entries_of<E: Fn(&Aabb, Interval) -> bool>(enters: E) -> spec_fn(
    Aabb,
    Interval,
    bool,
) -> bool {
    |bounds: Aabb, range: Interval, entered: bool| call_ensures(enters, (&bounds, range), entered)
}

/// Whether the box test never turns a ray away from a box in which it meets
/// something: where the ray meets an object within a range, it enters, within
/// that range, every box that encloses the object's box.
pub open spec fn cautious(
    entries: spec_fn(Aabb, Interval, bool) -> bool,
    boxes: Seq<Aabb>,
    crossings: spec_fn(usize) -> Set<int>,
) -> bool {
    forall|bounds: Aabb, range: Interval, i: usize, t: int|
        i < boxes.len() && bounds.encloses(boxes[i as int]) && #[trigger] crossings(i).contains(
            t,
        ) && range.holds(t) ==> !#[trigger] entries(bounds, range, false)
}

impl BvhChild {
    /// The objects at or below this side.
    pub open spec fn leaves(self) -> Set<usize>
        decreases self,
    {
        match self {
            BvhChild::Object(i) => set![i],
            BvhChild::Node(node) => node.leaves(),
        }
    }

    /// How many objects the side was built over.
    pub open spec fn count(self) -> nat
        decreases self,
    {
        match self {
            BvhChild::Object(_) => 1,
            BvhChild::Node(node) => node.count(),
        }
    }

    /// How many nodes a ray can pass on its way down from this side.
    pub open spec fn height(self) -> nat
        decreases self,
    {
        match self {
            BvhChild::Object(_) => 0,
            BvhChild::Node(node) => node.height(),
        }
    }

    /// The box of the side: the object's own, or the node's.
    pub open spec fn bounds(self, boxes: Seq<Aabb>) -> Aabb {
        match self {
            BvhChild::Object(i) => boxes[i as int],
            BvhChild::Node(node) => node.bounding_box,
        }
    }

    /// Whether every object below is one of `boxes` and every node's box is
    /// the union of the boxes of its two sides.
    pub open spec fn well_formed(self, boxes: Seq<Aabb>) -> bool
        decreases self,
    {
        match self {
            BvhChild::Object(i) => i < boxes.len(),
            BvhChild::Node(node) => node.well_formed(boxes),
        }
    }

    /// Whether `rec` can come out of a query of this side over `ray_t`.
    pub open spec fn yields<S>(
        self,
        ray_t: Interval,
        entries: spec_fn(Aabb, Interval, bool) -> bool,
        answers: spec_fn(usize, Interval, Option<HitRecord<S>>) -> bool,
        rec: Option<HitRecord<S>>,
    ) -> bool
        decreases self,
    {
        match self {
            BvhChild::Object(i) => answers(i, ray_t, rec),
            BvhChild::Node(node) => node.yields(ray_t, entries, answers, rec),
        }
    }
}

impl Bvh {
    /// The objects below this node.
    pub open spec fn leaves(self) -> Set<usize>
        decreases self,
    {
        self.left.leaves().union(self.right.leaves())
    }

    /// How many objects the node was built over: one where both sides are the
    /// same object.
    pub open spec fn count(self) -> nat
        decreases self,
    {
        match self.left {
            BvhChild::Object(a) => match self.right {
                BvhChild::Object(b) => if a == b {
                    1
                } else {
                    2
                },
                BvhChild::Node(r) => 1 + r.count(),
            },
            BvhChild::Node(l) => l.count() + self.right.count(),
        }
    }

    /// How many nodes a ray can pass on its way down from this node, the
    /// node itself included.
    pub open spec fn height(self) -> nat
        decreases self,
    {
        if self.left.height() >= self.right.height() {
            1 + self.left.height()
        } else {
            1 + self.right.height()
        }
    }

    /// Whether every object below is one of `boxes` and every node's box is
    /// the union of the boxes of its two sides.
    pub open spec fn well_formed(self, boxes: Seq<Aabb>) -> bool
        decreases self,
    {
        &&& self.left.well_formed(boxes)
        &&& self.right.well_formed(boxes)
        &&& self.bounding_box == Aabb::hull(self.left.bounds(boxes), self.right.bounds(boxes))
    }

    /// Whether the tree is a median split. A node over one object has it on
    /// both sides. A node over two has them in order along one of `axes`. A
    /// node over more has two nodes as sides: the left one over half of the
    /// objects, rounded down, the right one over the rest, and along one of
    /// `axes` nothing on the left lies above anything on the right.
    pub open spec fn splits(self, boxes: Seq<Aabb>, axes: Set<int>) -> bool
        decreases self,
    {
        match self.left {
            BvhChild::Object(a) => match self.right {
                BvhChild::Object(b) => a == b || exists|axis: int|
                    axes.contains(axis) && #[trigger] key_of(boxes, a, axis) <= key_of(
                        boxes,
                        b,
                        axis,
                    ),
                BvhChild::Node(_) => false,
            },
            BvhChild::Node(l) => match self.right {
                BvhChild::Object(_) => false,
                BvhChild::Node(r) => {
                    &&& l.count() + r.count() >= 3
                    &&& l.count() == (l.count() + r.count()) / 2
                    &&& l.leaves().disjoint(r.leaves())
                    &&& exists|axis: int|
                        axes.contains(axis) && #[trigger] ordered_along(
                            boxes,
                            l.leaves(),
                            r.leaves(),
                            axis,
                        )
                    &&& l.splits(boxes, axes)
                    &&& r.splits(boxes, axes)
                },
            },
        }
    }

    /// Whether `rec` can come out of a query of this node over `ray_t`: none
    /// where the ray does not enter the node's box; else the answer of the
    /// right side over `ray_t` narrowed to the left side's hit, or, where the
    /// right side has none, the answer of the left side over `ray_t`.
    /// `entries` tells what the box test can answer, `answers` what a probe
    /// can.
    pub open spec fn yields<S>(
        self,
        ray_t: Interval,
        entries: spec_fn(Aabb, Interval, bool) -> bool,
        answers: spec_fn(usize, Interval, Option<HitRecord<S>>) -> bool,
        rec: Option<HitRecord<S>>,
    ) -> bool
        decreases self,
    {
        ||| entries(self.bounding_box, ray_t, false) && rec is None
        ||| entries(self.bounding_box, ray_t, true) && exists|
            first: Option<HitRecord<S>>,
            second: Option<HitRecord<S>>,
        |
            {
                &&& self.left.yields(ray_t, entries, answers, first)
                &&& self.right.yields(narrowed(first, ray_t), entries, answers, second)
                &&& rec == #[trigger] later(first, second)
            }
    }

    /// A median split counts each object once: the count of a tree is the
    /// number of objects below it.
    pub proof fn lemma_count_is_number_of_leaves(self, boxes: Seq<Aabb>, axes: Set<int>)
        requires
            self.splits(boxes, axes),
        ensures
            self.leaves().finite(),
            self.leaves().len() == self.count(),
        decreases self,
    {
        broadcast use vstd::set::group_set_axioms;

        match self.left {
            BvhChild::Object(a) => match self.right {
                BvhChild::Object(b) => {
                    let one = Set::<usize>::empty().insert(a);
                    assert(one.finite() && one.len() == 1);
                    if a == b {
                        assert(self.leaves() =~= one);
                    } else {
                        assert(one.insert(b).finite() && one.insert(b).len() == 2);
                        assert(self.leaves() =~= one.insert(b));
                    }
                },
                BvhChild::Node(_) => {},
            },
            BvhChild::Node(l) => match self.right {
                BvhChild::Object(_) => {},
                BvhChild::Node(r) => {
                    l.lemma_count_is_number_of_leaves(boxes, axes);
                    r.lemma_count_is_number_of_leaves(boxes, axes);
                    vstd::set_lib::lemma_set_disjoint_lens(l.leaves(), r.leaves());
                    assert(self.leaves() =~= l.leaves() + r.leaves());
                    assert(self.right.count() == r.count());
                },
            },
        }
    }

    /// A median split is balanced: a tree that is `h` nodes high, for `h` of
    /// two or more, holds more than two to the power of `h - 1` objects. So
    /// the way down through a tree over `n` objects passes fewer than one
    /// node more than the logarithm of `n` to the base two.
    pub proof fn lemma_split_is_balanced(self, boxes: Seq<Aabb>, axes: Set<int>)
        requires
            self.splits(boxes, axes),
        ensures
            self.height() >= 1,
            self.count() >= 1,
            self.height() >= 2 ==> self.count() > power_of_two((self.height() - 1) as nat),
        decreases self,
    {
        match self.left {
            BvhChild::Object(_) => {},
            BvhChild::Node(l) => match self.right {
                BvhChild::Object(_) => {},
                BvhChild::Node(r) => {
                    l.lemma_split_is_balanced(boxes, axes);
                    r.lemma_split_is_balanced(boxes, axes);
                    assert(self.right.count() == r.count());
                    assert(self.left.height() == l.height());
                    assert(self.right.height() == r.height());
                    reveal_with_fuel(power_of_two, 3);
                },
            },
        }
    }

    /// The box of a node encloses the box of every object below it.
    pub proof fn lemma_box_encloses_leaves(self, boxes: Seq<Aabb>, i: usize)
        requires
            self.well_formed(boxes),
            self.leaves().contains(i),
        ensures
            i < boxes.len(),
            self.bounding_box.encloses(boxes[i as int]),
        decreases self,
    {
        if self.left.leaves().contains(i) {
            match self.left {
                BvhChild::Object(_) => {},
                BvhChild::Node(node) => {
                    node.lemma_box_encloses_leaves(boxes, i);
                },
            }
        } else {
            match self.right {
                BvhChild::Object(_) => {},
                BvhChild::Node(node) => {
                    node.lemma_box_encloses_leaves(boxes, i);
                },
            }
        }
    }

    /// A query of the tree finds the nearest hit: where every object answers
    /// faithfully and no box turns away a ray that meets something inside
    /// it, what comes out is where the ray first meets an object of the
    /// tree within `ray_t`.
    pub proof fn lemma_tree_finds_nearest<S>(
        self,
        boxes: Seq<Aabb>,
        crossings: spec_fn(usize) -> Set<int>,
        ray_t: Interval,
        entries: spec_fn(Aabb, Interval, bool) -> bool,
        answers: spec_fn(usize, Interval, Option<HitRecord<S>>) -> bool,
        rec: Option<HitRecord<S>>,
    )
        requires
            self.well_formed(boxes),
            faithful(answers, crossings, self.leaves()),
            cautious(entries, boxes, crossings),
            self.yields(ray_t, entries, answers, rec),
        ensures
            nearest_among(crossings, self.leaves(), ray_t, hit_rank(rec)),
        decreases self,
    {
        if entries(self.bounding_box, ray_t, false) && rec is None {
            assert forall|i: usize, u: int|
                self.leaves().contains(i) && #[trigger] crossings(i).contains(
                    u,
                ) implies !ray_t.holds(u) by {
                self.lemma_box_encloses_leaves(boxes, i);
            }
        } else {
            let (first, second) = choose|
                first: Option<HitRecord<S>>,
                second: Option<HitRecord<S>>,
            |
                {
                    &&& self.left.yields(ray_t, entries, answers, first)
                    &&& self.right.yields(narrowed(first, ray_t), entries, answers, second)
                    &&& rec == #[trigger] later(first, second)
                };
            let rest = narrowed(first, ray_t);
            match self.left {
                BvhChild::Object(i) => {
                    assert(self.leaves().contains(i));
                },
                BvhChild::Node(node) => {
                    assert(node.leaves().subset_of(self.leaves()));
                    node.lemma_tree_finds_nearest(boxes, crossings, ray_t, entries, answers, first);
                },
            }
            match self.right {
                BvhChild::Object(i) => {
                    assert(self.leaves().contains(i));
                },
                BvhChild::Node(node) => {
                    assert(node.leaves().subset_of(self.leaves()));
                    node.lemma_tree_finds_nearest(boxes, crossings, rest, entries, answers, second);
                },
            }
            assert(nearest_among(crossings, self.left.leaves(), ray_t, hit_rank(first)));
            assert(nearest_among(crossings, self.right.leaves(), rest, hit_rank(second)));
            match second {
                Some(found) => {
                    let i = choose|i: usize|
                        self.right.leaves().contains(i) && #[trigger] crossings(i).contains(
                            found.t as int,
                        );
                    assert(self.leaves().contains(i));
                },
                None => {
                    match first {
                        Some(found) => {
                            let i = choose|i: usize|
                                self.left.leaves().contains(i)
                                    && #[trigger] crossings(i).contains(found.t as int);
                            assert(self.leaves().contains(i));
                        },
                        None => {},
                    }
                },
            }
        }
    }

    /// The tree finds what a search of the whole list finds. For a tree over
    /// the first `n` objects of a list, with objects that answer faithfully
    /// and boxes that turn no ray away wrongly, a query of the tree and a
    /// search front to back report a hit on the same rays, at the same rank.
    pub proof fn lemma_tree_matches_scan<S>(
        self,
        boxes: Seq<Aabb>,
        crossings: spec_fn(usize) -> Set<int>,
        n: nat,
        ray_t: Interval,
        entries: spec_fn(Aabb, Interval, bool) -> bool,
        answers: spec_fn(usize, Interval, Option<HitRecord<S>>) -> bool,
        from_tree: Option<HitRecord<S>>,
        from_scan: Option<HitRecord<S>>,
    )
        requires
            n <= usize::MAX,
            self.well_formed(boxes),
            self.leaves() == first(n),
            faithful(answers, crossings, first(n)),
            cautious(entries, boxes, crossings),
            self.yields(ray_t, entries, answers, from_tree),
            scanned(answers, ray_t, n, from_scan),
        ensures
            hit_rank(from_tree) == hit_rank(from_scan),
    {
        self.lemma_tree_finds_nearest(boxes, crossings, ray_t, entries, answers, from_tree);
        lemma_scan_finds_nearest(answers, crossings, ray_t, n, from_scan);
        lemma_nearest_is_unique(
            crossings,
            first(n),
            ray_t,
            hit_rank(from_tree),
            hit_rank(from_scan),
        );
    }

    /// Whether the node holds just the two objects `a` and `b`, in their
    /// order along one of `axes`.
    pub open spec fn holds_pair(
        self,
        boxes: Seq<Aabb>,
        a: usize,
        b: usize,
        axes: Set<int>,
    ) -> bool {
        exists|axis: int|
            axes.contains(axis) && self.left == BvhChild::Object(
                (#[trigger] in_order(boxes, a, b, axis)).0,
            ) && self.right == BvhChild::Object(in_order(boxes, a, b, axis).1)
    }

    /// The three axes.
    pub open spec fn all_axes() -> Set<int> {
        Set::new(|axis: int| 0 <= axis <= 2)
    }

    /// A median split along some axes is one along any larger choice of axes.
    pub proof fn lemma_splits_along_more(self, boxes: Seq<Aabb>, axes: Set<int>, more: Set<int>)
        requires
            self.splits(boxes, axes),
            axes.subset_of(more),
        ensures
            self.splits(boxes, more),
        decreases self,
    {
        match self.left {
            BvhChild::Object(a) => match self.right {
                BvhChild::Object(b) => {
                    if a != b {
                        let axis = choose|axis: int|
                            axes.contains(axis) && #[trigger] key_of(boxes, a, axis) <= key_of(
                                boxes,
                                b,
                                axis,
                            );
                        assert(more.contains(axis) && key_of(boxes, a, axis) <= key_of(
                            boxes,
                            b,
                            axis,
                        ));
                    }
                },
                BvhChild::Node(_) => {},
            },
            BvhChild::Node(l) => match self.right {
                BvhChild::Object(_) => {},
                BvhChild::Node(r) => {
                    let axis = choose|axis: int|
                        axes.contains(axis) && #[trigger] ordered_along(
                            boxes,
                            l.leaves(),
                            r.leaves(),
                            axis,
                        );
                    assert(more.contains(axis) && ordered_along(
                        boxes,
                        l.leaves(),
                        r.leaves(),
                        axis,
                    ));
                    l.lemma_splits_along_more(boxes, axes, more);
                    r.lemma_splits_along_more(boxes, axes, more);
                },
            },
        }
    }

    fn key(boxes: &Vec<Aabb>, object: usize, axis: usize) -> (k: i64)
        requires
            object < boxes.len(),
        ensures
            k == key_of(boxes@, object, axis as int),
    {
        boxes[object].axis(axis).min
    }

    fn bounds_of(boxes: &Vec<Aabb>, child: &BvhChild) -> (b: Aabb)
        requires
            child.well_formed(boxes@),
        ensures
            b == child.bounds(boxes@),
    {
        match child {
            BvhChild::Object(i) => boxes[*i],
            BvhChild::Node(node) => node.bounding_box,
        }
    }

    /// Sorts the objects by their keys along an axis and cuts the list in two
    /// at the middle: the lower half, rounded down, and the rest.
    fn split_at_median(boxes: &Vec<Aabb>, objects: &Vec<usize>, axis: usize) -> (halves: (
        Vec<usize>,
        Vec<usize>,
    ))
        requires
            objects@.no_duplicates(),
            forall|k: int| 0 <= k < objects.len() ==> objects[k] < boxes.len(),
        ensures
            halves.0.len() == objects.len() / 2,
            halves.0.len() + halves.1.len() == objects.len(),
            halves.0@.no_duplicates(),
            halves.1@.no_duplicates(),
            forall|k: int| 0 <= k < halves.0.len() ==> halves.0[k] < boxes.len(),
            forall|k: int| 0 <= k < halves.1.len() ==> halves.1[k] < boxes.len(),
            halves.0@.to_set().disjoint(halves.1@.to_set()),
            halves.0@.to_set().union(halves.1@.to_set()) =~= objects@.to_set(),
            ordered_along(boxes@, halves.0@.to_set(), halves.1@.to_set(), axis as int),
    {
        let n = objects.len();
        let mut keyed: Vec<Keyed> = Vec::new();
        let mut k: usize = 0;
        while k < n
            invariant
                k <= n,
                n == objects.len(),
                keyed.len() == k,
                forall|j: int| 0 <= j < objects.len() ==> objects[j] < boxes.len(),
                forall|j: int|
                    0 <= j < k ==> (#[trigger] keyed[j]).object == objects[j] && keyed[j].key
                        == key_of(boxes@, objects[j], axis as int),
            decreases n - k,
        {
            keyed.push(Keyed { key: Self::key(boxes, objects[k], axis), object: objects[k] });
            k += 1;
        }
        let ghost before = keyed@;
        sort_by_key(&mut keyed);
        proof {
            lemma_reordered(before, keyed@);
        }
        let mid = n / 2;
        let mut low: Vec<usize> = Vec::new();
        let mut k: usize = 0;
        while k < mid
            invariant
                k <= mid <= n,
                keyed.len() == n,
                low.len() == k,
                forall|j: int| 0 <= j < k ==> #[trigger] low[j] == keyed[j].object,
            decreases mid - k,
        {
            low.push(keyed[k].object);
            k += 1;
        }
        let mut high: Vec<usize> = Vec::new();
        while k < n
            invariant
                mid <= k <= n,
                keyed.len() == n,
                high.len() == k - mid,
                forall|j: int| 0 <= j < k - mid ==> #[trigger] high[j] == keyed[mid + j].object,
            decreases n - k,
        {
            high.push(keyed[k].object);
            k += 1;
        }
        proof {
            let after = keyed@;
            assert forall|j: int| 0 <= j < n implies (#[trigger] after[j]).object < boxes.len()
                && after[j].key == key_of(boxes@, after[j].object, axis as int) by {
                assert(before.contains(after[j]));
            }
            assert(low@.no_duplicates());
            assert(high@.no_duplicates());
            assert forall|x: usize| low@.to_set().contains(x) implies !high@.to_set().contains(
                x,
            ) by {
                if high@.to_set().contains(x) {
                    let i = choose|i: int| 0 <= i < low.len() && low[i] == x;
                    let j = choose|j: int| 0 <= j < high.len() && high[j] == x;
                    assert(after[i].object == after[mid + j].object);
                }
            }
            assert forall|a: usize, b: usize|
                low@.to_set().contains(a) && high@.to_set().contains(b) implies key_of(
                boxes@,
                a,
                axis as int,
            ) <= key_of(boxes@, b, axis as int) by {
                let i = choose|i: int| 0 <= i < low.len() && low[i] == a;
                let j = choose|j: int| 0 <= j < high.len() && high[j] == b;
                assert(after[i].key <= after[mid + j].key);
            }
            assert forall|x: usize| objects@.to_set().contains(x) implies low@.to_set().union(
                high@.to_set(),
            ).contains(x) by {
                let j = choose|j: int| 0 <= j < objects.len() && objects[j] == x;
                assert(after.contains(before[j]));
                let m = choose|m: int| 0 <= m < after.len() && after[m] == before[j];
                if m < mid {
                    assert(low[m] == x);
                    assert(low@.contains(x));
                } else {
                    assert(high[m - mid] == x);
                    assert(high@.contains(x));
                }
            }
            assert forall|x: usize|
                low@.to_set().union(high@.to_set()).contains(x) implies objects@.to_set().contains(
                x,
            ) by {
                let m = if low@.to_set().contains(x) {
                    choose|i: int| 0 <= i < low.len() && low[i] == x
                } else {
                    mid + choose|i: int| 0 <= i < high.len() && high[i] == x
                };
                assert(before.contains(after[m]));
                let j = choose|j: int| 0 <= j < before.len() && before[j] == after[m];
                assert(objects[j] == x);
            }
        }
        (low, high)
    }

    fn build<A: Fn() -> isize>(boxes: &Vec<Aabb>, objects: Vec<usize>, pick_axis: &A) -> (tree: Bvh)
        requires
            objects.len() >= 1,
            objects@.no_duplicates(),
            forall|k: int| 0 <= k < objects.len() ==> objects[k] < boxes.len(),
            call_requires(*pick_axis, ()),
        ensures
            tree.leaves() =~= objects@.to_set(),
            tree.count() == objects.len(),
            tree.well_formed(boxes@),
            tree.splits(boxes@, axes_of(*pick_axis)),
            objects.len() == 1 ==> tree.left == BvhChild::Object(objects[0]) && tree.right
                == BvhChild::Object(objects[0]),
            objects.len() == 2 ==> tree.holds_pair(
                boxes@,
                objects[0],
                objects[1],
                axes_of(*pick_axis),
            ),
        decreases objects.len(),
    {
        let choice = pick_axis();
        let axis: usize = match choice {
            0 => 0,
            1 => 1,
            _ => 2,
        };
        assert(axes_of(*pick_axis).contains(axis as int)) by {
            assert(call_ensures(*pick_axis, (), choice) && axis as int == axis_of(choice));
        }
        let (left, right) = match objects.len() {
            1 => {
                let only = objects[0];
                assert(objects@.to_set() =~= set![only]) by {
                    assert(objects@.contains(objects@[0]));
                }
                (BvhChild::Object(only), BvhChild::Object(only))
            },
            2 => {
                let a = objects[0];
                let b = objects[1];
                assert(a != b);
                assert(objects@.to_set() =~= set![a, b]) by {
                    assert(objects@.contains(objects@[0]));
                    assert(objects@.contains(objects@[1]));
                }
                let ghost pair = in_order(boxes@, a, b, axis as int);
                if Self::key(boxes, a, axis) < Self::key(boxes, b, axis) {
                    (BvhChild::Object(a), BvhChild::Object(b))
                } else {
                    (BvhChild::Object(b), BvhChild::Object(a))
                }
            },
            _ => {
                let (low, high) = Self::split_at_median(boxes, &objects, axis);
                let l = Self::build(boxes, low, pick_axis);
                let r = Self::build(boxes, high, pick_axis);
                let left = BvhChild::Node(Box::new(l));
                let right = BvhChild::Node(Box::new(r));
                assert(left.count() + right.count() == objects.len());
                (left, right)
            },
        };
        let bounding_box = Aabb::from_aabbs(
            &Self::bounds_of(boxes, &left),
            &Self::bounds_of(boxes, &right),
        );
        Bvh { left, right, bounding_box }
    }

    /// Builds the hierarchy over the objects at places `start` to `end - 1` of
    /// a list, given the box of each object of the list. `pick_axis` is asked
    /// once at each node for the axis to split along: 0 for x, 1 for y,
    /// anything else for z.
    pub fn with_axes<A: Fn() -> isize>(
        source_objects: &Vec<Aabb>,
        start: usize,
        end: usize,
        pick_axis: &A,
    ) -> (tree: Bvh)
        requires
            start < end <= source_objects.len(),
            call_requires(*pick_axis, ()),
        ensures
            tree.leaves() =~= Set::new(|i: usize| start <= i < end),
            tree.count() == end - start,
            tree.well_formed(source_objects@),
            tree.splits(source_objects@, axes_of(*pick_axis)),
            end - start == 1 ==> tree.left == BvhChild::Object(start) && tree.right
                == BvhChild::Object(start),
            end - start == 2 ==> tree.holds_pair(
                source_objects@,
                start,
                (start + 1) as usize,
                axes_of(*pick_axis),
            ),
    {
        let mut objects: Vec<usize> = Vec::new();
        let mut i = start;
        while i < end
            invariant
                start <= i <= end,
                objects.len() == i - start,
                forall|k: int| 0 <= k < i - start ==> #[trigger] objects[k] == start + k,
            decreases end - i,
        {
            objects.push(i);
            i += 1;
        }
        assert(objects@.to_set() =~= Set::new(|i: usize| start <= i < end)) by {
            assert forall|x: usize| start <= x < end implies objects@.contains(x) by {
                assert(objects@[x - start] == x);
            }
        }
        Self::build(source_objects, objects, pick_axis)
    }

    /// Builds the hierarchy over the objects at places `start` to `end - 1` of
    /// a list, given the box of each object of the list, splitting each node
    /// along an axis picked at random.
    pub fn new(source_objects: &Vec<Aabb>, start: usize, end: usize) -> (tree: Bvh)
        requires
            start < end <= source_objects.len(),
        ensures
            tree.leaves() =~= Set::new(|i: usize| start <= i < end),
            tree.count() == end - start,
            tree.well_formed(source_objects@),
            tree.splits(source_objects@, Self::all_axes()),
            end - start == 1 ==> tree.left == BvhChild::Object(start) && tree.right
                == BvhChild::Object(start),
            end - start == 2 ==> tree.holds_pair(
                source_objects@,
                start,
                (start + 1) as usize,
                Self::all_axes(),
            ),
    {
        let pick_axis = || -> (choice: isize)
            ensures
                0 <= choice <= 2,
            { random_isize_range(0, 2) };
        let tree = Self::with_axes(source_objects, start, end, &pick_axis);
        proof {
            tree.lemma_splits_along_more(source_objects@, axes_of(pick_axis), Self::all_axes());
            if end - start == 2 {
                let axis = choose|axis: int|
                    axes_of(pick_axis).contains(axis) && tree.left == BvhChild::Object(
                        (#[trigger] in_order(source_objects@, start, (start + 1) as usize, axis)).0,
                    ) && tree.right == BvhChild::Object(
                        in_order(source_objects@, start, (start + 1) as usize, axis).1,
                    );
                assert(Self::all_axes().contains(axis));
            }
        }
        tree
    }

    /// Builds the hierarchy over all the objects of a list that holds at
    /// least one.
    pub fn from_list<H>(list: &HittableList<H>) -> (tree: Bvh)
        requires
            list.bounds().len() > 0,
        ensures
            tree.leaves() =~= first(list.bounds().len()),
            tree.count() == list.bounds().len(),
            tree.well_formed(list.bounds()),
            tree.splits(list.bounds(), Self::all_axes()),
            list.bounds().len() == 1 ==> tree.left == BvhChild::Object(0) && tree.right
                == BvhChild::Object(0),
            list.bounds().len() == 2 ==> tree.holds_pair(list.bounds(), 0, 1, Self::all_axes()),
    {
        let boxes = list.boxes();
        Self::new(boxes, 0, boxes.len())
    }

    pub fn bounding_box(&self) -> (r: &Aabb)
        ensures
            *r == self.bounding_box,
    {
        &self.bounding_box
    }

    /// The nearest hit below this node. `enters` tells whether the ray enters
    /// a box within a range; `probe` asks the object at a place of the list
    /// for its hit within a range.
    pub fn hit<S, E: Fn(&Aabb, Interval) -> bool, P: Fn(usize, Interval) -> Option<HitRecord<S>>>(
        &self,
        ray_t: Interval,
        enters: &E,
        probe: &P,
    ) -> (rec: Option<HitRecord<S>>)
        requires
            forall|bounds: Aabb, range: Interval| call_requires(*enters, (&bounds, range)),
            forall|i: usize, range: Interval|
                self.leaves().contains(i) ==> call_requires(*probe, (i, range)),
        ensures
            self.yields(ray_t, entries_of(*enters), answers_of(*probe), rec),
        decreases self,
    {
        if enters(&self.bounding_box, ray_t) {
            let hit_left = match &self.left {
                BvhChild::Object(i) => probe(*i, ray_t),
                BvhChild::Node(node) => node.hit(ray_t, enters, probe),
            };
            let right_t = match &hit_left {
                Some(hit_record) => Interval::new(ray_t.min, hit_record.t),
                None => Interval::new(ray_t.min, ray_t.max),
            };
            let ghost first = hit_left;
            let hit_right = match &self.right {
                BvhChild::Object(i) => probe(*i, right_t),
                BvhChild::Node(node) => node.hit(right_t, enters, probe),
            };
            let ghost second = hit_right;
            let rec = if hit_right.is_some() {
                hit_right
            } else {
                hit_left
            };
            proof {
                let entries = entries_of(*enters);
                let answers = answers_of(*probe);
                assert(entries(self.bounding_box, ray_t, true));
                assert(self.left.yields(ray_t, entries, answers, first));
                assert(self.right.yields(narrowed(first, ray_t), entries, answers, second));
                assert(rec == later(first, second));
            }
            rec
        } else {
            assert(entries_of(*enters)(self.bounding_box, ray_t, false));
            None
        }
    }
}

} // verus!

//! The tables behind gradient noise: a set of gradients, three shuffled index
//! tables, and the hash that picks a gradient for each corner of a lattice
//! cell.

use vstd::prelude::*;
use crate::{pick, random_usize_range, DRAW_PARTS};

verus! {

/// The number of gradients, and the length of each index table.
pub const POINT_COUNT: usize = 256;

/// `s` with the items at places `i` and `j` exchanged.
pub open spec fn swapped(s: Seq<usize>, i: int, j: int) -> Seq<usize> {
    s.update(i, s[j]).update(j, s[i])
}

/// `s` after the exchanges of a shuffle that has come down from place `n - 1`
/// to place `from`: at each place `i` on the way, the item there was
/// exchanged with the one at `targets[i]`.
pub open spec fn shuffled(s: Seq<usize>, n: int, from: int, targets: Seq<usize>) -> Seq<usize>
    decreases n - from,
{
    if from >= n {
        s
    } else {
        swapped(shuffled(s, n, from + 1, targets), from, targets[from] as int)
    }
}

/// Whether `s` holds each of the numbers below `POINT_COUNT` once.
pub open spec fn is_arrangement(s: Seq<usize>) -> bool {
    &&& s.len() == POINT_COUNT
    &&& forall|i: int| 0 <= i < s.len() ==> #[trigger] s[i] < POINT_COUNT
    &&& s.no_duplicates()
}

/// The numbers below `n` in rising order.
pub open spec fn counting(n: nat) -> Seq<usize> {
    Seq::new(n, |i: int| i as usize)
}

/// The place in an index table that a lattice coordinate falls on.
pub open spec fn wrapped(c: int) -> int {
    c % (POINT_COUNT as int)
}

/// An exchange moves items about: none is added and none dropped.
pub proof fn lemma_swapped_rearranges(s: Seq<usize>, i: int, j: int)
    requires
        0 <= i < s.len(),
        0 <= j < s.len(),
    ensures
        swapped(s, i, j).len() == s.len(),
        swapped(s, i, j).to_multiset() == s.to_multiset(),
{
    if i == j {
        assert(swapped(s, i, j) =~= s);
    } else {
        let half = s.update(i, s[j]);
        vstd::seq_lib::to_multiset_update(s, i, s[j]);
        vstd::seq_lib::to_multiset_update(half, j, s[i]);
        vstd::seq_lib::to_multiset_contains(s, s[i]);
        vstd::seq_lib::to_multiset_contains(s, s[j]);
        assert(s.contains(s[i]) && s.contains(s[j]));
        assert(swapped(s, i, j).to_multiset() =~= s.to_multiset());
    }
}

/// A shuffle moves items about: none is added and none dropped.
pub proof fn lemma_shuffled_rearranges(s: Seq<usize>, n: int, from: int, targets: Seq<usize>)
    requires
        0 <= from,
        n <= s.len(),
        n <= targets.len(),
        forall|i: int| from <= i < n ==> #[trigger] targets[i] <= i,
    ensures
        shuffled(s, n, from, targets).len() == s.len(),
        shuffled(s, n, from, targets).to_multiset() == s.to_multiset(),
        forall|i: int| n <= i < s.len() ==> shuffled(s, n, from, targets)[i] == s[i],
    decreases n - from,
{
    if from < n {
        lemma_shuffled_rearranges(s, n, from + 1, targets);
        lemma_swapped_rearranges(shuffled(s, n, from + 1, targets), from, targets[from] as int);
    }
}

/// What is rearranged from an arrangement is an arrangement.
pub proof fn lemma_rearranged_arrangement(before: Seq<usize>, after: Seq<usize>)
    requires
        is_arrangement(before),
        after.to_multiset() == before.to_multiset(),
    ensures
        is_arrangement(after),
{
    before.to_multiset_ensures();
    after.to_multiset_ensures();
    before.lemma_multiset_has_no_duplicates();
    after.lemma_multiset_has_no_duplicates_conv();
    assert forall|i: int| 0 <= i < after.len() implies #[trigger] after[i] < POINT_COUNT by {
        assert(after.contains(after[i]));
        vstd::seq_lib::to_multiset_contains(after, after[i]);
        vstd::seq_lib::to_multiset_contains(before, after[i]);
        let j = choose|j: int| 0 <= j < before.len() && before[j] == after[i];
        assert(before[j] < POINT_COUNT);
    }
}

/// What `shuffled` reads of `targets` lies at `from` and above.
proof fn lemma_shuffled_reads_above(
    s: Seq<usize>,
    n: int,
    from: int,
    targets: Seq<usize>,
    other: Seq<usize>,
)
    requires
        forall|i: int| from <= i < n ==> targets[i] == other[i],
    ensures
        shuffled(s, n, from, targets) == shuffled(s, n, from, other),
    decreases n - from,
{
    if from < n {
        lemma_shuffled_reads_above(s, n, from + 1, targets, other);
    }
}

/// Shuffles the first `n` items of `perm`. From place `n - 1` down to place
/// 1, the item at place `i` is exchanged with the one at the place that
/// `draw` gives for `i`, which must not lie above `i`.
pub fn permute_by<D: Fn(usize) -> usize>(perm: &mut Vec<usize>, n: usize, draw: &D)
    requires
        n <= old(perm).len(),
        forall|i: usize| 0 < i < n ==> call_requires(*draw, (i,)),
        forall|i: usize, target: usize|
            0 < i < n && call_ensures(*draw, (i,), target) ==> target <= i,
    ensures
        exists|targets: Seq<usize>|
            {
                &&& targets.len() == n
                &&& forall|i: int|
                    0 < i < n ==> call_ensures(*draw, (i as usize,), #[trigger] targets[i])
                &&& final(perm)@ == shuffled(old(perm)@, n as int, 1, targets)
            },
        final(perm)@.len() == old(perm)@.len(),
        final(perm)@.to_multiset() == old(perm)@.to_multiset(),
        forall|i: int| n <= i < old(perm)@.len() ==> final(perm)@[i] == old(perm)@[i],
{
    let ghost mut targets: Seq<usize> = Seq::new(n as nat, |i: int| 0usize);
    let mut i: usize = n;
    while i > 1
        invariant
            n <= old(perm).len(),
            perm.len() == old(perm).len(),
            i <= n,
            n >= 1 ==> i >= 1,
            targets.len() == n,
            forall|k: usize| 0 < k < n ==> call_requires(*draw, (k,)),
            forall|k: usize, target: usize|
                0 < k < n && call_ensures(*draw, (k,), target) ==> target <= k,
            forall|k: int| i <= k < n ==> call_ensures(*draw, (k as usize,), #[trigger] targets[k]),
            perm@ == shuffled(old(perm)@, n as int, i as int, targets),
        decreases i,
    {
        i -= 1;
        let target = draw(i);
        let ghost earlier = targets;
        proof {
            targets = targets.update(i as int, target);
            lemma_shuffled_reads_above(old(perm)@, n as int, i as int + 1, earlier, targets);
        }
        let here = perm[i];
        let there = perm[target];
        perm.set(i, there);
        perm.set(target, here);
    }
    proof {
        assert(shuffled(old(perm)@, n as int, 1, targets) == perm@);
        assert forall|k: int| 1 <= k < n implies #[trigger] targets[k] <= k by {
            assert(call_ensures(*draw, (k as usize,), targets[k]));
        }
        lemma_shuffled_rearranges(old(perm)@, n as int, 1, targets);
    }
}

/// Whether `target` is a place that a draw from the thread's generator can
/// select for place `i`: the one among the places up to `i` that some draw
/// selects.
pub open spec fn selectable(i: int, target: usize) -> bool {
    exists|k: int| 0 <= k < DRAW_PARTS && target == #[trigger] pick(0, i, k)
}

/// Shuffles the first `n` items of `perm` with draws from the thread's
/// generator. From place `n - 1` down to place 1, the item at place `i` is
/// exchanged with the one at a place up to `i` that a draw selects.
pub fn permute(perm: &mut Vec<usize>, n: usize)
    requires
        n <= old(perm).len(),
    ensures
        exists|targets: Seq<usize>|
            {
                &&& targets.len() == n
                &&& forall|i: int| 0 < i < n ==> selectable(i, #[trigger] targets[i])
                &&& forall|i: int| 0 < i < n ==> #[trigger] targets[i] <= i
                &&& final(perm)@ == shuffled(old(perm)@, n as int, 1, targets)
            },
        final(perm)@.len() == old(perm)@.len(),
        final(perm)@.to_multiset() == old(perm)@.to_multiset(),
        forall|i: int| n <= i < old(perm)@.len() ==> final(perm)@[i] == old(perm)@[i],
{
    let draw = |i: usize| -> (target: usize)
        requires
            i < usize::MAX,
        ensures
            target <= i,
            selectable(i as int, target),
        { random_usize_range(0, i) };
    permute_by(perm, n, &draw);
    proof {
        let targets = choose|targets: Seq<usize>|
            {
                &&& targets.len() == n
                &&& forall|i: int|
                    0 < i < n ==> call_ensures(draw, (i as usize,), #[trigger] targets[i])
                &&& perm@ == shuffled(old(perm)@, n as int, 1, targets)
            };
        assert forall|i: int| 0 < i < n implies selectable(i, #[trigger] targets[i])
            && targets[i] <= i by {
            assert(call_ensures(draw, (i as usize,), targets[i]));
        }
    }
}

/// An index table: the numbers below `POINT_COUNT`, shuffled with `draw`.
pub fn perlin_generate_perm_by<D: Fn(usize) -> usize>(draw: &D) -> (perm: Vec<usize>)
    requires
        forall|i: usize| 0 < i < POINT_COUNT ==> call_requires(*draw, (i,)),
        forall|i: usize, target: usize|
            0 < i < POINT_COUNT && call_ensures(*draw, (i,), target) ==> target <= i,
    ensures
        is_arrangement(perm@),
        exists|targets: Seq<usize>|
            {
                &&& targets.len() == POINT_COUNT
                &&& forall|i: int|
                    0 < i < POINT_COUNT ==> call_ensures(
                        *draw,
                        (i as usize,),
                        #[trigger] targets[i],
                    )
                &&& perm@ == shuffled(counting(POINT_COUNT as nat), POINT_COUNT as int, 1, targets)
            },
{
    let mut perm: Vec<usize> = Vec::with_capacity(POINT_COUNT);
    let mut i: usize = 0;
    while i < POINT_COUNT
        invariant
            i <= POINT_COUNT,
            perm.len() == i,
            forall|k: int| 0 <= k < i ==> #[trigger] perm[k] == k,
        decreases POINT_COUNT - i,
    {
        perm.push(i);
        i += 1;
    }
    assert(perm@ =~= counting(POINT_COUNT as nat));
    let ghost before = perm@;
    permute_by(&mut perm, POINT_COUNT, draw);
    proof {
        lemma_rearranged_arrangement(before, perm@);
    }
    perm
}

/// An index table: the numbers below `POINT_COUNT`, shuffled with draws from
/// the thread's generator.
pub fn perlin_generate_perm() -> (perm: Vec<usize>)
    ensures
        is_arrangement(perm@),
{
    let draw = |i: usize| -> (target: usize)
        requires
            i < usize::MAX,
        ensures
            target <= i,
        { random_usize_range(0, i) };
    perlin_generate_perm_by(&draw)
}

/// Tells whether `perm` holds each of the numbers below `POINT_COUNT` once.
pub fn check_arrangement(perm: &Vec<usize>) -> (ok: bool)
    ensures
        ok == is_arrangement(perm@),
{
    if perm.len() != POINT_COUNT {
        return false;
    }
    let mut seen: Vec<bool> = Vec::with_capacity(POINT_COUNT);
    let mut i: usize = 0;
    while i < POINT_COUNT
        invariant
            i <= POINT_COUNT,
            seen.len() == i,
            forall|v: int| 0 <= v < i ==> !#[trigger] seen[v],
        decreases POINT_COUNT - i,
    {
        seen.push(false);
        i += 1;
    }
    let mut i: usize = 0;
    while i < POINT_COUNT
        invariant
            i <= POINT_COUNT,
            perm.len() == POINT_COUNT,
            seen.len() == POINT_COUNT,
            forall|k: int| 0 <= k < i ==> #[trigger] perm[k] < POINT_COUNT,
            forall|k: int, m: int| 0 <= k < m < i ==> perm[k] != perm[m],
            forall|v: int|
                0 <= v < POINT_COUNT ==> (#[trigger] seen[v] <==> exists|k: int|
                    0 <= k < i && perm[k] == v),
        decreases POINT_COUNT - i,
    {
        let value = perm[i];
        if value >= POINT_COUNT {
            return false;
        }
        if seen[value] {
            proof {
                let k = choose|k: int| 0 <= k < i && perm[k] == value;
                assert(perm@[k] == perm@[i as int]);
            }
            return false;
        }
        seen.set(value, true);
        i += 1;
        proof {
            assert forall|v: int| 0 <= v < POINT_COUNT implies (#[trigger] seen[v] <==> exists|
                k: int,
            |
                0 <= k < i && perm[k] == v) by {
                if v == value {
                    assert(perm[i - 1] == v);
                }
            }
        }
    }
    true
}

/// The tables of a noise generator over gradients of type `V`.
pub struct Perlin<V> {
    random_vec: Vec<V>,
    perm_x: Vec<usize>,
    perm_y: Vec<usize>,
    perm_z: Vec<usize>,
}

impl<V> Perlin<V> {
    #[verifier::type_invariant]
    spec fn tables_fit(self) -> bool {
        self.well_formed()
    }

    /// The gradients.
    pub closed spec fn gradients(self) -> Seq<V> {
        self.random_vec@
    }

    /// The index table of an axis: 0 is x, 1 is y, anything else z.
    pub closed spec fn table(self, axis: int) -> Seq<usize> {
        if axis == 0 {
            self.perm_x@
        } else if axis == 1 {
            self.perm_y@
        } else {
            self.perm_z@
        }
    }

    /// Whether there are `POINT_COUNT` gradients and each index table holds
    /// each number below `POINT_COUNT` once. Every generator that this
    /// library hands out is so.
    pub open spec fn well_formed(self) -> bool {
        &&& self.gradients().len() == POINT_COUNT
        &&& is_arrangement(self.table(0))
        &&& is_arrangement(self.table(1))
        &&& is_arrangement(self.table(2))
    }

    /// The place among the gradients that the lattice point `(i, j, k)`
    /// hashes to.
    pub open spec fn slot(self, i: int, j: int, k: int) -> usize {
        self.table(0)[wrapped(i)] ^ self.table(1)[wrapped(j)] ^ self.table(2)[wrapped(k)]
    }

    /// The gradient of the lattice point `(i, j, k)`.
    pub open spec fn gradient_at(self, i: int, j: int, k: int) -> V {
        self.gradients()[self.slot(i, j, k) as int]
    }

    /// The hash of every lattice point is a place among the gradients.
    pub proof fn lemma_slot_in_table(self, i: int, j: int, k: int)
        requires
            self.well_formed(),
        ensures
            self.slot(i, j, k) < POINT_COUNT,
    {
        let a = self.table(0)[wrapped(i)];
        let b = self.table(1)[wrapped(j)];
        let c = self.table(2)[wrapped(k)];
        assert((a ^ b ^ c) < 256) by (bit_vector)
            requires
                a < 256,
                b < 256,
                c < 256,
        ;
    }

    /// The lattice repeats: a step of `POINT_COUNT` along any axis comes to
    /// the same gradient.
    pub proof fn lemma_lattice_repeats(self, i: int, j: int, k: int)
        ensures
            self.gradient_at(i + POINT_COUNT, j, k) == self.gradient_at(i, j, k),
            self.gradient_at(i, j + POINT_COUNT, k) == self.gradient_at(i, j, k),
            self.gradient_at(i, j, k + POINT_COUNT) == self.gradient_at(i, j, k),
    {
        assert((i + 256) % 256 == i % 256);
        assert((j + 256) % 256 == j % 256);
        assert((k + 256) % 256 == k % 256);
    }

    /// A generator over the given gradients, with index tables shuffled by
    /// draws from the thread's generator. There must be `POINT_COUNT`
    /// gradients.
    pub fn new(random_vec: Vec<V>) -> (made: Option<Self>)
        ensures
            made is Some <==> random_vec.len() == POINT_COUNT,
            made matches Some(perlin) ==> perlin.well_formed() && perlin.gradients()
                == random_vec@,
    {
        if random_vec.len() != POINT_COUNT {
            return None;
        }
        let perm_x = perlin_generate_perm();
        let perm_y = perlin_generate_perm();
        let perm_z = perlin_generate_perm();
        Some(Perlin { random_vec, perm_x, perm_y, perm_z })
    }

    /// A generator over the given gradients and index tables. There must be
    /// `POINT_COUNT` gradients, and each table must hold each number below
    /// `POINT_COUNT` once.
    pub fn from_tables(
        random_vec: Vec<V>,
        perm_x: Vec<usize>,
        perm_y: Vec<usize>,
        perm_z: Vec<usize>,
    ) -> (made: Option<Self>)
        ensures
            made is Some <==> random_vec.len() == POINT_COUNT && is_arrangement(perm_x@)
                && is_arrangement(perm_y@) && is_arrangement(perm_z@),
            made matches Some(perlin) ==> {
                &&& perlin.well_formed()
                &&& perlin.gradients() == random_vec@
                &&& perlin.table(0) == perm_x@
                &&& perlin.table(1) == perm_y@
                &&& perlin.table(2) == perm_z@
            },
    {
        if random_vec.len() != POINT_COUNT || !check_arrangement(&perm_x) || !check_arrangement(
            &perm_y,
        ) || !check_arrangement(&perm_z) {
            return None;
        }
        Some(Perlin { random_vec, perm_x, perm_y, perm_z })
    }

    /// The gradient of the lattice point `(i, j, k)`.
    pub fn gradient(&self, i: i32, j: i32, k: i32) -> (g: &V)
        ensures
            self.slot(i as int, j as int, k as int) < POINT_COUNT,
            *g == self.gradient_at(i as int, j as int, k as int),
    {
        proof {
            use_type_invariant(self);
            self.lemma_slot_in_table(i as int, j as int, k as int);
        }
        let x: i32 = i & 255;
        let y: i32 = j & 255;
        let z: i32 = k & 255;
        assert(0 <= x < 256 && x == i % 256) by (bit_vector)
            requires
                x == i & 255,
        ;
        assert(0 <= y < 256 && y == j % 256) by (bit_vector)
            requires
                y == j & 255,
        ;
        assert(0 <= z < 256 && z == k % 256) by (bit_vector)
            requires
                z == k & 255,
        ;
        let slot = self.perm_x[x as usize] ^ self.perm_y[y as usize] ^ self.perm_z[z as usize];
        &self.random_vec[slot]
    }

    /// The gradients of the eight corners of the lattice cell whose lowest
    /// corner is `(i, j, k)`. The corner `di` steps along x, `dj` along y and
    /// `dk` along z comes at place `4 * di + 2 * dj + dk`.
    pub fn corners(&self, i: i32, j: i32, k: i32) -> (c: Vec<&V>)
        ensures
            c.len() == 8,
            forall|di: int, dj: int, dk: int|
                0 <= di < 2 && 0 <= dj < 2 && 0 <= dk < 2 ==> *#[trigger] c[4 * di + 2 * dj + dk]
                    == self.gradient_at(i + di, j + dj, k + dk),
    {
        let mut c: Vec<&V> = Vec::with_capacity(8);
        let mut n: usize = 0;
        while n < 8
            invariant
                n <= 8,
                c.len() == n,
                forall|m: int|
                    0 <= m < n ==> *#[trigger] c[m] == self.gradient_at(
                        i + m / 4,
                        j + (m / 2) % 2,
                        k + m % 2,
                    ),
            decreases 8 - n,
        {
            let di: i32 = (n / 4) as i32;
            let dj: i32 = ((n / 2) % 2) as i32;
            let dk: i32 = (n % 2) as i32;
            let g = self.gradient(i.wrapping_add(di), j.wrapping_add(dj), k.wrapping_add(dk));
            proof {
                Self::lemma_wrapped_step(i, di);
                Self::lemma_wrapped_step(j, dj);
                Self::lemma_wrapped_step(k, dk);
            }
            c.push(g);
            n += 1;
        }
        assert forall|di: int, dj: int, dk: int|
            0 <= di < 2 && 0 <= dj < 2 && 0 <= dk < 2 implies *#[trigger] c[4 * di + 2 * dj + dk]
            == self.gradient_at(i + di, j + dj, k + dk) by {
            let m = 4 * di + 2 * dj + dk;
            assert(m / 4 == di && (m / 2) % 2 == dj && m % 2 == dk);
        }
        c
    }

    /// A step that runs off the end of the coordinates lands on the same
    /// place of the table as the step itself.
    proof fn lemma_wrapped_step(c: i32, d: i32)
        requires
            0 <= d <= 1,
        ensures
            wrapped(c.wrapping_add(d) as int) == wrapped(c + d),
    {
        let w = c.wrapping_add(d);
        assert(w % 256 == (c + d) % 256) by (bit_vector)
            requires
                w == c.wrapping_add(d),
                0 <= d <= 1,
        ;
    }
}

} // verus!

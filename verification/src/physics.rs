//! Circles, collision layers and the collision world.
//!
//! The world owns a set of circles, each tagged with a [`Layer`], and
//! computes the collision graph once per frame with a sweep-and-prune broad
//! phase followed by an exact narrow phase.  The broad phase groups circles
//! whose x-extents chain together; the narrow phase tests exact circle
//! intersection and layer compatibility inside each group.
//!
//! Layer filtering is *directional*: whether `b` is recorded as a partner
//! of `a` is decided by `a`'s own entry in the [`CollisionMatrix`], so an
//! asymmetrically populated matrix gives asymmetric results (this is what a
//! probe layer that sees everything but is seen by nothing relies on).

use vstd::prelude::*;
use crate::keyed_set::{Key, KeyedSet};
use crate::math::{abs, Vec2};

verus! {

/// A collision layer: a single bit out of 32.  Its view is the bit.
#[derive(Clone, Copy, PartialEq, Eq, Structural, Debug)]
pub struct Layer {
    bits: u32,
}

impl View for Layer {
    type V = u32;

    closed spec fn view(&self) -> u32 {
        self.bits
    }
}

impl Layer {
    /// The layer occupying bit `num`.
    pub fn new(num: u8) -> (r: Self)
        requires
            num < 32,
        ensures
            r@ == 1u32 << num,
    {
        Layer { bits: 1u32 << num }
    }
}

/// A set of layers, as a bitmask.  Its view is the mask.
#[derive(Clone, Copy, PartialEq, Eq, Structural, Debug)]
pub struct LayerMask {
    bits: u32,
}

impl View for LayerMask {
    type V = u32;

    closed spec fn view(&self) -> u32 {
        self.bits
    }
}

/// The union of the layers of `s`, as a bitmask.
pub open spec fn or_all(s: Seq<Layer>) -> u32
    decreases s.len(),
{
    if s.len() == 0 {
        0u32
    } else {
        or_all(s.drop_last()) | s.last()@
    }
}

impl LayerMask {
    /// The mask containing no layer.
    pub fn empty() -> (r: Self)
        ensures
            r@ == 0,
    {
        LayerMask { bits: 0 }
    }

    /// Adds `layer` to the mask.
    pub fn add(&mut self, layer: Layer)
        ensures
            final(self)@ == old(self)@ | layer@,
    {
        self.bits = self.bits | layer.bits;
    }

    /// The mask holding exactly the given layers.
    pub fn new(layers: Vec<Layer>) -> (r: Self)
        ensures
            r@ == or_all(layers@),
    {
        let mut ret = LayerMask::empty();
        let n = layers.len();
        for i in 0..n
            invariant
                n == layers@.len(),
                ret@ == or_all(layers@.take(i as int)),
        {
            ret.add(layers[i]);
            proof {
                assert(layers@.take(i + 1).drop_last() =~= layers@.take(i as int));
            }
        }
        proof {
            assert(layers@.take(n as int) =~= layers@);
        }
        ret
    }

    /// Whether `layer`'s bit is in the mask.
    pub fn contains(&self, layer: &Layer) -> (r: bool)
        ensures
            r == ((self@ & layer@) != 0),
    {
        (self.bits & layer.bits) != 0
    }
}

/// A physical circle: a center, a non-negative radius and a layer.
#[derive(Clone, Copy, PartialEq, Eq, Structural, Debug)]
pub struct Circle {
    pub center: Vec2,
    pub radius: i32,
    pub layer: Layer,
}

/// Exact circle intersection: the distance of the centers is at most the
/// sum of the radii (stated with squares, which is equivalent for
/// non-negative radii).
pub open spec fn intersects_spec(a: Circle, b: Circle) -> bool {
    let dx = b.center.x - a.center.x;
    let dy = b.center.y - a.center.y;
    let rsum = a.radius + b.radius;
    dx * dx + dy * dy <= rsum * rsum
}

/// Whether the x-extents `[center.x - radius, center.x + radius]` of the
/// two circles overlap.
pub open spec fn x_overlap_spec(a: Circle, b: Circle) -> bool {
    abs(b.center.x - a.center.x) <= a.radius + b.radius
}

impl Circle {
    /// Whether the x-extents of the two circles overlap (the broad-phase
    /// test).
    pub fn intersects_x_axis(&self, other: &Self) -> (r: bool)
        ensures
            r == x_overlap_spec(*self, *other),
    {
        let dx: i64 = other.center.x as i64 - self.center.x as i64;
        let adx: i64 = if dx >= 0 {
            dx
        } else {
            -dx
        };
        adx <= self.radius as i64 + other.radius as i64
    }

    /// Whether the two circles intersect exactly (the narrow-phase test).
    pub fn intersects(&self, other: &Self) -> (r: bool)
        ensures
            r == intersects_spec(*self, *other),
    {
        let dx: i64 = other.center.x as i64 - self.center.x as i64;
        let dy: i64 = other.center.y as i64 - self.center.y as i64;
        let rsum: i64 = self.radius as i64 + other.radius as i64;
        proof {
            assert(-0x10000000000000000 <= dx * dx <= 0x10000000000000000 && -0x10000000000000000
                <= dy * dy <= 0x10000000000000000 && -0x10000000000000000 <= rsum * rsum
                <= 0x10000000000000000) by (nonlinear_arith)
                requires
                    -0x100000000 <= dx <= 0x100000000,
                    -0x100000000 <= dy <= 0x100000000,
                    -0x100000000 <= rsum <= 0x100000000,
            ;
        }
        let dist_sq: i128 = (dx as i128) * (dx as i128) + (dy as i128) * (dy as i128);
        let rsum_sq: i128 = (rsum as i128) * (rsum as i128);
        dist_sq <= rsum_sq
    }
}

/// The collision matrix: which layers may register collisions with which.
/// Its view maps a layer bit to the mask of layers it collides with; a
/// layer with no entry collides with everything.
pub struct CollisionMatrix {
    entries: Vec<(Layer, LayerMask)>,
}

/// The map described by a sequence of layer/mask entries, later entries
/// winning.
spec fn matrix_map(s: Seq<(Layer, LayerMask)>) -> Map<u32, u32>
    decreases s.len(),
{
    if s.len() == 0 {
        Map::empty()
    } else {
        matrix_map(s.drop_last()).insert(s.last().0@, s.last().1@)
    }
}

/// Entry sequences with pairwise distinct layers describe exactly the map
/// of their entries.
proof fn lemma_matrix_map(s: Seq<(Layer, LayerMask)>)
    requires
        forall|i: int, j: int| 0 <= i < j < s.len() ==> s[i].0@ != s[j].0@,
    ensures
        forall|k: u32|
            #[trigger] matrix_map(s).contains_key(k) <==> exists|i: int|
                0 <= i < s.len() && s[i].0@ == k,
        forall|i: int|
            0 <= i < s.len() ==> matrix_map(s).contains_key(#[trigger] s[i].0@)
                && matrix_map(s)[s[i].0@] == s[i].1@,
    decreases s.len(),
{
    if s.len() > 0 {
        lemma_matrix_map(s.drop_last());
        assert forall|i: int|
            0 <= i < s.len() implies matrix_map(s).contains_key(#[trigger] s[i].0@)
            && matrix_map(s)[s[i].0@] == s[i].1@ by {
            if i < s.len() - 1 {
                assert(s.drop_last()[i] == s[i]);
                assert(s[i].0@ != s.last().0@);
            }
        }
        assert forall|k: u32| #[trigger] matrix_map(s).contains_key(k) implies exists|i: int|
            0 <= i < s.len() && s[i].0@ == k by {
            if k == s.last().0@ {
                assert(s[s.len() - 1].0@ == k);
            } else {
                assert(matrix_map(s) == matrix_map(s.drop_last()).insert(s.last().0@, s.last().1@));
                assert(matrix_map(s.drop_last()).contains_key(k));
                let i = choose|i: int| 0 <= i < s.drop_last().len() && s.drop_last()[i].0@ == k;
                assert(0 <= i < s.drop_last().len() && s.drop_last()[i].0@ == k);
                assert(s.drop_last()[i] == s[i]);
            }
        }
    }
}

/// Overwriting one entry's mask updates exactly that layer in the map.
proof fn lemma_matrix_map_update(s: Seq<(Layer, LayerMask)>, i: int, v: LayerMask)
    requires
        forall|p: int, q: int| 0 <= p < q < s.len() ==> s[p].0@ != s[q].0@,
        0 <= i < s.len(),
    ensures
        matrix_map(s.update(i, (s[i].0, v))) == matrix_map(s).insert(s[i].0@, v@),
    decreases s.len(),
{
    lemma_matrix_map(s);
    let s2 = s.update(i, (s[i].0, v));
    if i == s.len() - 1 {
        assert(s2.drop_last() =~= s.drop_last());
        assert(matrix_map(s2) =~= matrix_map(s).insert(s[i].0@, v@));
    } else {
        assert(s2.drop_last() =~= s.drop_last().update(i, (s[i].0, v)));
        lemma_matrix_map_update(s.drop_last(), i, v);
        assert(s2.last() == s.last());
        assert(matrix_map(s2) =~= matrix_map(s).insert(s[i].0@, v@));
    }
}

impl View for CollisionMatrix {
    type V = Map<u32, u32>;

    closed spec fn view(&self) -> Map<u32, u32> {
        matrix_map(self.entries@)
    }
}

impl CollisionMatrix {
    /// Well-formedness: one entry per layer.
    pub closed spec fn wf(&self) -> bool {
        forall|i: int, j: int| 0 <= i < j < self.entries@.len() ==> self.entries@[i].0@
            != self.entries@[j].0@
    }

    /// Creates an empty matrix: every layer collides with everything.
    pub fn new() -> (r: Self)
        ensures
            r.wf(),
            r@ == Map::<u32, u32>::empty(),
    {
        CollisionMatrix { entries: Vec::new() }
    }

    /// Sets the mask of layers that `layer` may collide with.
    #[verifier::loop_isolation(false)]
    pub fn insert(&mut self, layer: Layer, mask: LayerMask)
        requires
            old(self).wf(),
        ensures
            final(self).wf(),
            final(self)@ == old(self)@.insert(layer@, mask@),
    {
        proof {
            lemma_matrix_map(self.entries@);
        }
        let n = self.entries.len();
        for i in 0..n
            invariant
                n == self.entries@.len(),
                *self == *old(self),
                forall|j: int| 0 <= j < i ==> self.entries@[j].0@ != layer@,
        {
            if self.entries[i].0.bits == layer.bits {
                self.entries.set(i, (layer, mask));
                proof {
                    assert(old(self).entries@[i as int].0 == layer);
                    lemma_matrix_map_update(old(self).entries@, i as int, mask);
                }
                return ;
            }
        }
        self.entries.push((layer, mask));
        proof {
            assert(self.entries@.drop_last() =~= old(self).entries@);
        }
    }

    /// The mask stored for `layer`, if any.
    #[verifier::loop_isolation(false)]
    fn lookup(&self, layer: &Layer) -> (r: Option<&LayerMask>)
        requires
            self.wf(),
        ensures
            match r {
                Some(m) => self@.contains_key(layer@) && m@ == self@[layer@],
                None => !self@.contains_key(layer@),
            },
    {
        proof {
            lemma_matrix_map(self.entries@);
        }
        let n = self.entries.len();
        for i in 0..n
            invariant
                n == self.entries@.len(),
                forall|j: int| 0 <= j < i ==> self.entries@[j].0@ != layer@,
        {
            if self.entries[i].0.bits == layer.bits {
                return Some(&self.entries[i].1);
            }
        }
        None
    }
}

/// Directional layer compatibility: if the matrix has no entry for `a`'s
/// layer, `a` collides with everything; otherwise `b`'s layer must be in
/// `a`'s mask.
pub open spec fn layers_collide_spec(m: Map<u32, u32>, a: Layer, b: Layer) -> bool {
    if m.contains_key(a@) {
        (m[a@] & b@) != 0
    } else {
        true
    }
}

/// A circle pair collides when the circles intersect exactly and the left
/// circle's layer entry admits the right circle's layer.
pub open spec fn collides_pair(m: Map<u32, u32>, a: Circle, b: Circle) -> bool {
    intersects_spec(a, b) && layers_collide_spec(m, a.layer, b.layer)
}

/// The collision world: the circles and the collision matrix.
pub struct World {
    pub circles: KeyedSet<Circle>,
    pub collision_matrix: CollisionMatrix,
}

impl World {
    /// Well-formedness: the circle arena and matrix are well-formed and
    /// every circle has a non-negative radius.
    pub open spec fn wf(&self) -> bool {
        &&& self.circles.wf()
        &&& self.collision_matrix.wf()
        &&& forall|k: u64| #[trigger] self.circles@.contains_key(k) ==> self.circles@[k].radius >= 0
    }

    /// The collision matrix's abstract view.
    pub open spec fn matrix(&self) -> Map<u32, u32> {
        self.collision_matrix@
    }

    /// Creates a world with the given collision matrix and no circles.
    pub fn new(collision_matrix: CollisionMatrix) -> (r: Self)
        requires
            collision_matrix.wf(),
        ensures
            r.wf(),
            r.circles@ == Map::<u64, Circle>::empty(),
            r.circles.next_id() == 0,
            r.matrix() == collision_matrix@,
    {
        World { circles: KeyedSet::new(), collision_matrix }
    }

    /// Decides [`layers_collide_spec`] for two circles.
    fn layers_collide(collision_matrix: &CollisionMatrix, left: &Circle, right: &Circle) -> (r:
        bool)
        requires
            collision_matrix.wf(),
        ensures
            r == layers_collide_spec(collision_matrix@, left.layer, right.layer),
    {
        match collision_matrix.lookup(&left.layer) {
            None => true,
            Some(layer_mask) => layer_mask.contains(&right.layer),
        }
    }
}

} // verus!

// The sweep-and-prune pipeline: entries, their canonical x-ordering, the
// broad-phase grouping and the per-group narrow phase.

verus! {

/// One live circle with its key, as the sweep sees it.
pub type CircleEntry = (Key<Circle>, Circle);

/// The canonical strict order of the sweep: ascending center x, ties broken
/// by ascending key.  For entries with distinct keys this is a total order,
/// so a world has exactly one sorted arrangement.
pub open spec fn entry_lt(a: CircleEntry, b: CircleEntry) -> bool {
    a.1.center.x < b.1.center.x || (a.1.center.x == b.1.center.x && a.0@ < b.0@)
}

/// The sequence is strictly sorted by [`entry_lt`].
pub open spec fn sorted_entries(s: Seq<CircleEntry>) -> bool {
    forall|i: int, j: int| 0 <= i < j < s.len() ==> entry_lt(#[trigger] s[i], #[trigger] s[j])
}

/// All entries carry distinct keys.
pub open spec fn distinct_keys(s: Seq<CircleEntry>) -> bool {
    forall|i: int, j: int| 0 <= i < j < s.len() ==> (#[trigger] s[i]).0@ != (#[trigger] s[j]).0@
}

/// `s` is the sorted arrangement of the circle map `m`: sorted, one entry
/// per key, and entries agree with the map.
pub open spec fn arranges(m: Map<u64, Circle>, s: Seq<CircleEntry>) -> bool {
    &&& sorted_entries(s)
    &&& distinct_keys(s)
    &&& forall|i: int|
        0 <= i < s.len() ==> m.contains_key((#[trigger] s[i]).0@) && m[s[i].0@] == s[i].1
    &&& forall|k: u64|
        #[trigger] m.contains_key(k) ==> exists|i: int| 0 <= i < s.len() && s[i].0@ == k
}

/// The sorted arrangement of a circle map (unique by
/// [`lemma_arranges_unique`]).
pub open spec fn arrangement(m: Map<u64, Circle>) -> Seq<CircleEntry> {
    choose|s: Seq<CircleEntry>| arranges(m, s)
}

/// A circle map has at most one sorted arrangement.
proof fn lemma_arranges_unique(m: Map<u64, Circle>, s1: Seq<CircleEntry>, s2: Seq<CircleEntry>)
    requires
        arranges(m, s1),
        arranges(m, s2),
    ensures
        s1 == s2,
    decreases s1.len(),
{
    if s1.len() == 0 {
        if s2.len() > 0 {
            assert(m.contains_key(s2[0].0@));
        }
        assert(s1 =~= s2);
    } else {
        assert(m.contains_key(s1[0].0@));
        let j = choose|j: int| 0 <= j < s2.len() && s2[j].0@ == s1[0].0@;
        crate::keyed_set::lemma_key_view_injective::<Circle>(s2[j].0, s1[0].0);
        assert(s2[j] == s1[0]);
        if j != 0 {
            // s2[0] would have to appear in s1 after s1[0], contradicting
            // that it precedes s1[0] in s2.
            assert(m.contains_key(s2[0].0@));
            let i = choose|i: int| 0 <= i < s1.len() && s1[i].0@ == s2[0].0@;
            crate::keyed_set::lemma_key_view_injective::<Circle>(s1[i].0, s2[0].0);
            assert(s1[i] == s2[0]);
            assert(entry_lt(s2[0], s2[j]));
            if i == 0 {
                assert(entry_lt(s1[0], s1[0]));
            } else {
                assert(entry_lt(s1[0], s1[i]));
            }
            assert(false);
        }
        let m2 = m.remove(s1[0].0@);
        assert forall|k: u64| #[trigger] m2.contains_key(k) implies exists|i: int|
            0 <= i < s1.skip(1).len() && s1.skip(1)[i].0@ == k by {
            assert(m.contains_key(k));
            let i = choose|i: int| 0 <= i < s1.len() && s1[i].0@ == k;
            assert(i != 0);
            assert(s1.skip(1)[i - 1].0@ == k);
        }
        assert forall|k: u64| #[trigger] m2.contains_key(k) implies exists|i: int|
            0 <= i < s2.skip(1).len() && s2.skip(1)[i].0@ == k by {
            assert(m.contains_key(k));
            let i = choose|i: int| 0 <= i < s2.len() && s2[i].0@ == k;
            assert(i != 0);
            assert(s2.skip(1)[i - 1].0@ == k);
        }
        assert forall|i: int| 0 <= i < s1.skip(1).len() implies m2.contains_key(
            (#[trigger] s1.skip(1)[i]).0@,
        ) && m2[s1.skip(1)[i].0@] == s1.skip(1)[i].1 by {
            assert(s1.skip(1)[i] == s1[i + 1]);
        }
        assert forall|i: int| 0 <= i < s2.skip(1).len() implies m2.contains_key(
            (#[trigger] s2.skip(1)[i]).0@,
        ) && m2[s2.skip(1)[i].0@] == s2.skip(1)[i].1 by {
            assert(s2.skip(1)[i] == s2[i + 1]);
        }
        assert(arranges(m2, s1.skip(1))) by {
            assert forall|i: int, j: int| 0 <= i < j < s1.skip(1).len() implies entry_lt(
                #[trigger] s1.skip(1)[i],
                #[trigger] s1.skip(1)[j],
            ) && s1.skip(1)[i].0@ != s1.skip(1)[j].0@ by {
                assert(s1.skip(1)[i] == s1[i + 1] && s1.skip(1)[j] == s1[j + 1]);
            }
        }
        assert(arranges(m2, s2.skip(1))) by {
            assert forall|i: int, j: int| 0 <= i < j < s2.skip(1).len() implies entry_lt(
                #[trigger] s2.skip(1)[i],
                #[trigger] s2.skip(1)[j],
            ) && s2.skip(1)[i].0@ != s2.skip(1)[j].0@ by {
                assert(s2.skip(1)[i] == s2[i + 1] && s2.skip(1)[j] == s2[j + 1]);
            }
        }
        lemma_arranges_unique(m2, s1.skip(1), s2.skip(1));
        assert forall|i: int| 0 <= i < s1.len() implies s1[i] == s2[i] by {
            if i > 0 {
                assert(s1.skip(1)[i - 1] == s2.skip(1)[i - 1]);
            }
        }
        assert(s1 =~= s2);
    }
}

/// The arrangement of `m` is exactly any sequence that arranges `m`.
proof fn lemma_arrangement_is(m: Map<u64, Circle>, s: Seq<CircleEntry>)
    requires
        arranges(m, s),
    ensures
        arrangement(m) == s,
{
    assert(arranges(m, arrangement(m)));
    lemma_arranges_unique(m, arrangement(m), s);
}

/// Distinct keys carry over to any permutation.
proof fn lemma_distinct_keys_transfer(s1: Seq<CircleEntry>, s2: Seq<CircleEntry>)
    requires
        distinct_keys(s1),
        s1.to_multiset() == s2.to_multiset(),
    ensures
        distinct_keys(s2),
{
    assert(s1.no_duplicates()) by {
        assert forall|i: int, j: int|
            0 <= i < s1.len() && 0 <= j < s1.len() && i != j implies s1[i] != s1[j] by {
            if i < j {
                assert(s1[i].0@ != s1[j].0@);
            } else {
                assert(s1[j].0@ != s1[i].0@);
            }
        }
    }
    s1.lemma_multiset_has_no_duplicates();
    s2.lemma_multiset_has_no_duplicates_conv();
    broadcast use vstd::seq_lib::group_to_multiset_ensures;

    assert forall|i: int, j: int| 0 <= i < j < s2.len() implies (#[trigger] s2[i]).0@
        != (#[trigger] s2[j]).0@ by {
        if s2[i].0@ == s2[j].0@ {
            assert(s2[i] != s2[j]);
            assert(s2.contains(s2[i]) && s2.contains(s2[j]));
            assert(s2.to_multiset().count(s2[i]) > 0 && s2.to_multiset().count(s2[j]) > 0);
            assert(s1.to_multiset().count(s2[i]) > 0 && s1.to_multiset().count(s2[j]) > 0);
            assert(s1.contains(s2[i]) && s1.contains(s2[j]));
            let p = choose|p: int| 0 <= p < s1.len() && s1[p] == s2[i];
            let q = choose|q: int| 0 <= q < s1.len() && s1[q] == s2[j];
            if p < q {
                assert(s1[p].0@ != s1[q].0@);
            } else {
                assert(s1[q].0@ != s1[p].0@);
            }
        }
    }
}

/// Decides [`entry_lt`].
fn entry_lt_exec(a: CircleEntry, b: CircleEntry) -> (r: bool)
    ensures
        r == entry_lt(a, b),
{
    a.1.center.x < b.1.center.x || (a.1.center.x == b.1.center.x && a.0.id() < b.0.id())
}

/// Swapping two adjacent positions keeps the multiset of entries.
proof fn lemma_adjacent_swap_multiset(s: Seq<CircleEntry>, a: int)
    requires
        0 <= a,
        a + 1 < s.len(),
    ensures
        s.update(a, s[a + 1]).update(a + 1, s[a]).to_multiset() == s.to_multiset(),
{
    broadcast use vstd::seq_lib::group_to_multiset_ensures;

    let s2 = s.update(a, s[a + 1]).update(a + 1, s[a]);
    let pre = s.take(a);
    let suf = s.skip(a + 2);
    let m1 = seq![s[a], s[a + 1]];
    let m2 = seq![s[a + 1], s[a]];
    assert(s =~= pre + m1 + suf);
    assert(s2 =~= pre + m2 + suf);
    vstd::seq_lib::lemma_multiset_commutative(pre + m1, suf);
    vstd::seq_lib::lemma_multiset_commutative(pre + m2, suf);
    vstd::seq_lib::lemma_multiset_commutative(pre, m1);
    vstd::seq_lib::lemma_multiset_commutative(pre, m2);
    assert(m1.to_multiset() =~= m2.to_multiset()) by {
        assert(m1 =~= Seq::<CircleEntry>::empty().push(s[a]).push(s[a + 1]));
        assert(m2 =~= Seq::<CircleEntry>::empty().push(s[a + 1]).push(s[a]));
    }
    assert(s2.to_multiset() =~= s.to_multiset());
}

/// Swapping two positions keeps keys distinct.
proof fn lemma_distinct_keys_swap(s: Seq<CircleEntry>, a: int, b: int)
    requires
        distinct_keys(s),
        0 <= a < b < s.len(),
    ensures
        distinct_keys(s.update(a, s[b]).update(b, s[a])),
{
    let s2 = s.update(a, s[b]).update(b, s[a]);
    assert forall|i: int, j: int| 0 <= i < j < s2.len() implies (#[trigger] s2[i]).0@
        != (#[trigger] s2[j]).0@ by {
        let pi = if i == a { b } else if i == b { a } else { i };
        let pj = if j == a { b } else if j == b { a } else { j };
        assert(s2[i] == s[pi] && s2[j] == s[pj]);
        if pi < pj {
            assert(s[pi].0@ != s[pj].0@);
        } else {
            assert(s[pj].0@ != s[pi].0@);
        }
    }
}

/// Sorts the entries by [`entry_lt`] (insertion sort).
#[verifier::loop_isolation(false)]
fn sort_entries(v: &mut Vec<CircleEntry>)
    requires
        distinct_keys(old(v)@),
    ensures
        final(v)@.len() == old(v)@.len(),
        final(v)@.to_multiset() == old(v)@.to_multiset(),
        sorted_entries(final(v)@),
        distinct_keys(final(v)@),
{
    let n = v.len();
    if n == 0 {
        return ;
    }
    let mut i: usize = 1;
    while i < n
        invariant
            1 <= i <= n,
            v@.len() == n,
            v@.to_multiset() == old(v)@.to_multiset(),
            distinct_keys(v@),
            sorted_entries(v@.take(i as int)),
        decreases n - i,
    {
        proof {
            assert forall|p: int, q: int| 0 <= p < q <= i && q != i implies entry_lt(
                #[trigger] v@[p],
                #[trigger] v@[q],
            ) by {
                assert(v@.take(i as int)[p] == v@[p] && v@.take(i as int)[q] == v@[q]);
            }
        }
        let mut j: usize = i;
        while j > 0 && entry_lt_exec(v[j], v[j - 1])
            invariant
                0 <= j <= i < n,
                v@.len() == n,
                v@.to_multiset() == old(v)@.to_multiset(),
                distinct_keys(v@),
                forall|p: int, q: int|
                    0 <= p < q <= i && q != j ==> entry_lt(#[trigger] v@[p], #[trigger] v@[q]),
                forall|q: int| j < q <= i ==> entry_lt(v@[j as int], #[trigger] v@[q]),
            decreases j,
        {
            let prev = v[j - 1];
            let cur = v[j];
            let ghost before = v@;
            proof {
                lemma_distinct_keys_swap(before, j - 1, j as int);
                lemma_adjacent_swap_multiset(before, j - 1);
            }
            v.set(j - 1, cur);
            v.set(j, prev);
            proof {
                assert(v@ =~= before.update(j - 1, before[j as int]).update(
                    j as int,
                    before[j - 1],
                ));
                assert forall|p: int, q: int|
                    0 <= p < q <= i && q != j - 1 implies entry_lt(
                    #[trigger] v@[p],
                    #[trigger] v@[q],
                ) by {
                    if q == j {
                        if p < j - 1 {
                            assert(entry_lt(before[p], before[j - 1]));
                        } else {
                            assert(p == j - 1);
                            assert(entry_lt(before[j as int], before[j - 1]));
                        }
                    } else {
                        if p == j - 1 {
                            assert(entry_lt(before[j as int], before[q]));
                        } else if p == j {
                            assert(entry_lt(before[j - 1], before[q]));
                        } else {
                            assert(entry_lt(before[p], before[q]));
                        }
                    }
                }
                assert forall|q: int| j - 1 < q <= i implies entry_lt(
                    v@[j - 1],
                    #[trigger] v@[q],
                ) by {
                    if q == j {
                        assert(entry_lt(before[j as int], before[j - 1]));
                    } else {
                        assert(entry_lt(before[j as int], before[q]));
                    }
                }
            }
            j = j - 1;
        }
        proof {
            assert forall|p: int, q: int| 0 <= p < q <= i implies entry_lt(
                #[trigger] v@[p],
                #[trigger] v@[q],
            ) by {
                if q == j {
                    assert(j > 0);
                    assert(!entry_lt(v@[j as int], v@[j - 1]));
                    assert(v@[j - 1].0@ != v@[j as int].0@);
                    assert(entry_lt(v@[j - 1], v@[j as int]));
                    if p < j - 1 {
                        assert(entry_lt(v@[p], v@[j - 1]));
                    }
                }
            }
            assert(sorted_entries(v@.take(i + 1))) by {
                assert forall|p: int, q: int| 0 <= p < q < i + 1 implies entry_lt(
                    #[trigger] v@.take(i + 1)[p],
                    #[trigger] v@.take(i + 1)[q],
                ) by {
                    assert(v@.take(i + 1)[p] == v@[p] && v@.take(i + 1)[q] == v@[q]);
                }
            }
        }
        i = i + 1;
    }
    proof {
        assert(v@.take(n as int) =~= v@);
    }
}

} // verus!

// The broad phase: grouping the sorted entries into maximal runs whose
// x-extents chain together.

verus! {

/// The sweep state after the first `i` sorted entries have been processed:
/// the groups closed so far (in order) and the currently active interval.
/// A new entry joins the active interval when its x-extent overlaps any
/// member; otherwise the interval closes and a new one starts.
pub open spec fn sweep_state(s: Seq<CircleEntry>, i: int) -> (Seq<Seq<CircleEntry>>, Seq<
    CircleEntry,
>)
    recommends
        1 <= i <= s.len(),
        s.len() > 0,
    decreases i,
{
    if i <= 1 {
        (Seq::empty(), seq![s[0]])
    } else {
        let prev = sweep_state(s, i - 1);
        let e = s[i - 1];
        if exists|j: int| 0 <= j < prev.1.len() && x_overlap_spec((#[trigger] prev.1[j]).1, e.1) {
            (prev.0, prev.1.push(e))
        } else {
            (prev.0.push(prev.1), seq![e])
        }
    }
}

/// All broad-phase groups of the sweep over `s`.
pub open spec fn sweep_groups(s: Seq<CircleEntry>) -> Seq<Seq<CircleEntry>> {
    if s.len() == 0 {
        Seq::empty()
    } else {
        let st = sweep_state(s, s.len() as int);
        st.0.push(st.1)
    }
}

/// The key `k` appears in the group `g`.
pub open spec fn in_group(g: Seq<CircleEntry>, k: u64) -> bool {
    exists|i: int| 0 <= i < g.len() && (#[trigger] g[i]).0@ == k
}

/// The keys `a` and `b` fall in one broad-phase group of the sweep over
/// `s`.
pub open spec fn same_group(s: Seq<CircleEntry>, a: u64, b: u64) -> bool {
    exists|gi: int|
        0 <= gi < sweep_groups(s).len() && in_group(#[trigger] sweep_groups(s)[gi], a) && in_group(
            sweep_groups(s)[gi],
            b,
        )
}

/// Every entry of the group `g` is one of the first `i` entries of `s`.
pub open spec fn group_sub(g: Seq<CircleEntry>, s: Seq<CircleEntry>, i: int) -> bool {
    forall|p: int| 0 <= p < g.len() ==> exists|q: int| 0 <= q < i && s[q] == #[trigger] g[p]
}

/// Structural facts about the sweep state: the active interval is never
/// empty, groups draw their entries from the processed prefix, keep
/// distinct keys, cover the prefix, and are pairwise key-disjoint.
proof fn lemma_sweep_state_props(s: Seq<CircleEntry>, i: int)
    requires
        distinct_keys(s),
        sorted_entries(s),
        1 <= i <= s.len(),
    ensures
        ({
            let st = sweep_state(s, i);
            &&& st.1.len() > 0
            &&& group_sub(st.1, s, i)
            &&& forall|gi: int| 0 <= gi < st.0.len() ==> group_sub(#[trigger] st.0[gi], s, i)
            &&& distinct_keys(st.1)
            &&& forall|gi: int| 0 <= gi < st.0.len() ==> distinct_keys(#[trigger] st.0[gi])
            &&& sorted_entries(st.1)
            &&& forall|gi: int| 0 <= gi < st.0.len() ==> sorted_entries(#[trigger] st.0[gi])
            &&& forall|p: int|
                0 <= p < i ==> in_group(st.1, (#[trigger] s[p]).0@) || exists|gi: int|
                    0 <= gi < st.0.len() && in_group(#[trigger] st.0[gi], s[p].0@)
            &&& forall|gi: int, k: u64|
                #![trigger in_group(st.0[gi], k)]
                0 <= gi < st.0.len() && in_group(st.0[gi], k) ==> !in_group(st.1, k)
            &&& forall|gi: int, gj: int, k: u64|
                #![trigger in_group(st.0[gi], k), in_group(st.0[gj], k)]
                0 <= gi < gj < st.0.len() && in_group(st.0[gi], k) ==> !in_group(st.0[gj], k)
        }),
    decreases i,
{
    if i <= 1 {
        let st = sweep_state(s, i);
        assert(st.1 =~= seq![s[0]]);
        assert(st.1[0] == s[0]);
    } else {
        lemma_sweep_state_props(s, i - 1);
        let prev = sweep_state(s, i - 1);
        let e = s[i - 1];
        let st = sweep_state(s, i);
        // The new entry's key is not in any group built from the shorter
        // prefix.
        assert forall|g: Seq<CircleEntry>|
            group_sub(g, s, i - 1) implies !in_group(g, e.0@) by {
            if in_group(g, e.0@) {
                let p = choose|p: int| 0 <= p < g.len() && g[p].0@ == e.0@;
                let q = choose|q: int| 0 <= q < i - 1 && s[q] == g[p];
                assert(s[q].0@ == s[i - 1].0@);
            }
        }
        if exists|j: int| 0 <= j < prev.1.len() && x_overlap_spec((#[trigger] prev.1[j]).1, e.1) {
            assert(st.0 == prev.0 && st.1 == prev.1.push(e));
            assert(group_sub(st.1, s, i)) by {
                assert forall|p: int| 0 <= p < st.1.len() implies exists|q: int|
                    0 <= q < i && s[q] == #[trigger] st.1[p] by {
                    if p < prev.1.len() {
                        assert(st.1[p] == prev.1[p]);
                        let q = choose|q: int| 0 <= q < i - 1 && s[q] == prev.1[p];
                        assert(s[q] == st.1[p]);
                    } else {
                        assert(st.1[p] == e && s[i - 1] == e);
                    }
                }
            }
            assert forall|gi: int| 0 <= gi < st.0.len() implies group_sub(
                #[trigger] st.0[gi],
                s,
                i,
            ) by {
                assert forall|p: int| 0 <= p < st.0[gi].len() implies exists|q: int|
                    0 <= q < i && s[q] == #[trigger] st.0[gi][p] by {
                    let q = choose|q: int| 0 <= q < i - 1 && s[q] == st.0[gi][p];
                    assert(0 <= q < i && s[q] == st.0[gi][p]);
                }
            }
            assert(distinct_keys(st.1)) by {
                assert(!in_group(prev.1, e.0@));
                assert forall|p: int, q: int| 0 <= p < q < st.1.len() implies (#[trigger] st.1[p]).0@
                    != (#[trigger] st.1[q]).0@ by {
                    if q < prev.1.len() {
                        assert(st.1[p] == prev.1[p] && st.1[q] == prev.1[q]);
                    } else {
                        assert(st.1[q] == e && st.1[p] == prev.1[p]);
                        if prev.1[p].0@ == e.0@ {
                            assert(in_group(prev.1, e.0@));
                        }
                    }
                }
            }
            assert(sorted_entries(st.1)) by {
                assert forall|p: int, q: int| 0 <= p < q < st.1.len() implies entry_lt(
                    #[trigger] st.1[p],
                    #[trigger] st.1[q],
                ) by {
                    if q < prev.1.len() {
                        assert(st.1[p] == prev.1[p] && st.1[q] == prev.1[q]);
                    } else {
                        assert(st.1[q] == e && st.1[p] == prev.1[p]);
                        let w = choose|w: int| 0 <= w < i - 1 && s[w] == prev.1[p];
                        assert(entry_lt(s[w], s[i - 1]));
                    }
                }
            }
            assert forall|p: int|
                0 <= p < i implies in_group(st.1, (#[trigger] s[p]).0@) || exists|gi: int|
                0 <= gi < st.0.len() && in_group(#[trigger] st.0[gi], s[p].0@) by {
                if p == i - 1 {
                    assert(st.1[st.1.len() - 1] == e);
                    assert(in_group(st.1, s[p].0@));
                } else {
                    if in_group(prev.1, s[p].0@) {
                        let w = choose|w: int| 0 <= w < prev.1.len() && prev.1[w].0@ == s[p].0@;
                        assert(st.1[w] == prev.1[w]);
                        assert(in_group(st.1, s[p].0@));
                    }
                }
            }
            assert forall|gi: int, k: u64|
                #![trigger in_group(st.0[gi], k)]
                0 <= gi < st.0.len() && in_group(st.0[gi], k) implies !in_group(st.1, k) by {
                if in_group(st.1, k) {
                    let w = choose|w: int| 0 <= w < st.1.len() && st.1[w].0@ == k;
                    if w < prev.1.len() {
                        assert(prev.1[w].0@ == k);
                        assert(in_group(prev.1, k));
                    } else {
                        assert(k == e.0@);
                        assert(group_sub(st.0[gi], s, i - 1));
                    }
                }
            }
        } else {
            assert(st.0 == prev.0.push(prev.1) && st.1 =~= seq![e]);
            assert(st.1[0] == e && s[i - 1] == e);
            assert forall|gi: int| 0 <= gi < st.0.len() implies group_sub(
                #[trigger] st.0[gi],
                s,
                i,
            ) && distinct_keys(#[trigger] st.0[gi]) by {
                if gi < prev.0.len() {
                    assert(st.0[gi] == prev.0[gi]);
                    assert forall|p: int| 0 <= p < st.0[gi].len() implies exists|q: int|
                        0 <= q < i && s[q] == #[trigger] st.0[gi][p] by {
                        let q = choose|q: int| 0 <= q < i - 1 && s[q] == st.0[gi][p];
                        assert(0 <= q < i && s[q] == st.0[gi][p]);
                    }
                } else {
                    assert(st.0[gi] == prev.1);
                    assert forall|p: int| 0 <= p < st.0[gi].len() implies exists|q: int|
                        0 <= q < i && s[q] == #[trigger] st.0[gi][p] by {
                        let q = choose|q: int| 0 <= q < i - 1 && s[q] == prev.1[p];
                        assert(0 <= q < i && s[q] == st.0[gi][p]);
                    }
                }
            }
            assert forall|p: int|
                0 <= p < i implies in_group(st.1, (#[trigger] s[p]).0@) || exists|gi: int|
                0 <= gi < st.0.len() && in_group(#[trigger] st.0[gi], s[p].0@) by {
                if p == i - 1 {
                    assert(in_group(st.1, s[p].0@));
                } else {
                    if in_group(prev.1, s[p].0@) {
                        assert(st.0[st.0.len() - 1] == prev.1);
                        assert(in_group(st.0[st.0.len() - 1], s[p].0@));
                    } else {
                        let gi = choose|gi: int|
                            0 <= gi < prev.0.len() && in_group(prev.0[gi], s[p].0@);
                        assert(st.0[gi] == prev.0[gi]);
                        assert(in_group(st.0[gi], s[p].0@));
                    }
                }
            }
            assert forall|gi: int, k: u64|
                #![trigger in_group(st.0[gi], k)]
                0 <= gi < st.0.len() && in_group(st.0[gi], k) implies !in_group(st.1, k) by {
                if in_group(st.1, k) {
                    assert(st.1[0] == e);
                    let w = choose|w: int| 0 <= w < st.1.len() && st.1[w].0@ == k;
                    assert(w == 0 && k == e.0@);
                    assert(group_sub(st.0[gi], s, i - 1));
                }
            }
            assert forall|gi: int, gj: int, k: u64|
                #![trigger in_group(st.0[gi], k), in_group(st.0[gj], k)]
                0 <= gi < gj < st.0.len() && in_group(st.0[gi], k) implies !in_group(
                st.0[gj],
                k,
            ) by {
                if gj < prev.0.len() {
                    assert(st.0[gi] == prev.0[gi] && st.0[gj] == prev.0[gj]);
                } else {
                    assert(st.0[gj] == prev.1 && st.0[gi] == prev.0[gi]);
                }
            }
        }
    }
}

/// The packaged facts about the final groups of the sweep.
proof fn lemma_sweep_groups_props(s: Seq<CircleEntry>)
    requires
        distinct_keys(s),
        sorted_entries(s),
        s.len() > 0,
    ensures
        forall|gi: int|
            0 <= gi < sweep_groups(s).len() ==> group_sub(
                #[trigger] sweep_groups(s)[gi],
                s,
                s.len() as int,
            ) && distinct_keys(sweep_groups(s)[gi]) && sorted_entries(sweep_groups(s)[gi]),
        forall|p: int|
            #![trigger s[p]]
            0 <= p < s.len() ==> exists|gi: int|
                0 <= gi < sweep_groups(s).len() && in_group(sweep_groups(s)[gi], s[p].0@),
        forall|gi: int, gj: int, k: u64|
            #![trigger in_group(sweep_groups(s)[gi], k), in_group(sweep_groups(s)[gj], k)]
            0 <= gi < sweep_groups(s).len() && 0 <= gj < sweep_groups(s).len() && gi != gj
                && in_group(sweep_groups(s)[gi], k) ==> !in_group(sweep_groups(s)[gj], k),
{
    lemma_sweep_state_props(s, s.len() as int);
    let st = sweep_state(s, s.len() as int);
    let gs = sweep_groups(s);
    assert(gs == st.0.push(st.1));
    assert forall|gi: int| 0 <= gi < gs.len() implies group_sub(
        #[trigger] gs[gi],
        s,
        s.len() as int,
    ) && distinct_keys(gs[gi]) && sorted_entries(gs[gi]) by {
        if gi < st.0.len() {
            assert(gs[gi] == st.0[gi]);
        } else {
            assert(gs[gi] == st.1);
        }
    }
    assert forall|p: int| #![trigger s[p]] 0 <= p < s.len() implies exists|gi: int|
        0 <= gi < gs.len() && in_group(gs[gi], s[p].0@) by {
        if in_group(st.1, s[p].0@) {
            assert(gs[gs.len() - 1] == st.1);
            assert(in_group(gs[gs.len() - 1], s[p].0@));
        } else {
            let gi = choose|gi: int| 0 <= gi < st.0.len() && in_group(st.0[gi], s[p].0@);
            assert(gs[gi] == st.0[gi]);
            assert(in_group(gs[gi], s[p].0@));
        }
    }
    assert forall|gi: int, gj: int, k: u64|
        #![trigger in_group(gs[gi], k), in_group(gs[gj], k)]
        0 <= gi < gs.len() && 0 <= gj < gs.len() && gi != gj && in_group(
            gs[gi],
            k,
        ) implies !in_group(gs[gj], k) by {
        let a = if gi < gj {
            gi
        } else {
            gj
        };
        let b = if gi < gj {
            gj
        } else {
            gi
        };
        if b < st.0.len() {
            assert(gs[a] == st.0[a] && gs[b] == st.0[b]);
            if in_group(st.0[a], k) {
                assert(!in_group(st.0[b], k));
            }
        } else {
            assert(gs[b] == st.1 && gs[a] == st.0[a]);
            if in_group(st.0[a], k) {
                assert(!in_group(st.1, k));
            }
        }
    }
}

} // verus!

// The narrow phase and the public collision query.

verus! {

/// The key identifiers of a list of keys.
pub open spec fn key_ids(s: Seq<Key<Circle>>) -> Seq<u64> {
    s.map_values(|k: Key<Circle>| k@)
}

/// The per-frame collision result: for every circle with at least one
/// collision partner this frame, the list of its partners' keys.  Its view
/// maps the circle's identifier to the identifiers of its partners.
pub struct CircleCollisions {
    entries: Vec<(Key<Circle>, Vec<Key<Circle>>)>,
}

/// The map described by a sequence of key/partner-list entries.
spec fn cc_map(s: Seq<(Key<Circle>, Vec<Key<Circle>>)>) -> Map<u64, Seq<u64>>
    decreases s.len(),
{
    if s.len() == 0 {
        Map::empty()
    } else {
        cc_map(s.drop_last()).insert(s.last().0@, key_ids(s.last().1@))
    }
}

/// Entry sequences with pairwise distinct keys describe exactly the map of
/// their entries.
proof fn lemma_cc_map(s: Seq<(Key<Circle>, Vec<Key<Circle>>)>)
    requires
        forall|i: int, j: int| 0 <= i < j < s.len() ==> s[i].0@ != s[j].0@,
    ensures
        forall|k: u64|
            #[trigger] cc_map(s).contains_key(k) <==> exists|i: int|
                0 <= i < s.len() && s[i].0@ == k,
        forall|i: int|
            0 <= i < s.len() ==> cc_map(s).contains_key(#[trigger] s[i].0@) && cc_map(s)[s[i].0@]
                == key_ids(s[i].1@),
    decreases s.len(),
{
    if s.len() > 0 {
        lemma_cc_map(s.drop_last());
        assert forall|i: int|
            0 <= i < s.len() implies cc_map(s).contains_key(#[trigger] s[i].0@)
            && cc_map(s)[s[i].0@] == key_ids(s[i].1@) by {
            if i < s.len() - 1 {
                assert(s.drop_last()[i] == s[i]);
                assert(s[i].0@ != s.last().0@);
            }
        }
        assert forall|k: u64| #[trigger] cc_map(s).contains_key(k) implies exists|i: int|
            0 <= i < s.len() && s[i].0@ == k by {
            if k == s.last().0@ {
                assert(s[s.len() - 1].0@ == k);
            } else {
                assert(cc_map(s) == cc_map(s.drop_last()).insert(s.last().0@, key_ids(s.last().1@)));
                assert(cc_map(s.drop_last()).contains_key(k));
                let i = choose|i: int| 0 <= i < s.drop_last().len() && s.drop_last()[i].0@ == k;
                assert(s.drop_last()[i] == s[i]);
            }
        }
    }
}

impl View for CircleCollisions {
    type V = Map<u64, Seq<u64>>;

    closed spec fn view(&self) -> Map<u64, Seq<u64>> {
        cc_map(self.entries@)
    }
}

impl CircleCollisions {
    /// Well-formedness: one entry per circle, each with at least one
    /// partner, and no partner listed twice.
    pub closed spec fn wf(&self) -> bool {
        &&& forall|i: int, j: int|
            0 <= i < j < self.entries@.len() ==> self.entries@[i].0@ != self.entries@[j].0@
        &&& forall|i: int| 0 <= i < self.entries@.len() ==> (#[trigger] self.entries@[i]).1@.len() > 0
        &&& forall|i: int|
            0 <= i < self.entries@.len() ==> key_ids((#[trigger] self.entries@[i]).1@).no_duplicates()
    }

    /// The partner list recorded for `key`, if that circle collided with
    /// anything this frame.
    #[verifier::loop_isolation(false)]
    pub fn get(&self, key: &Key<Circle>) -> (r: Option<&Vec<Key<Circle>>>)
        requires
            self.wf(),
        ensures
            match r {
                Some(v) => self@.contains_key(key@) && key_ids(v@) == self@[key@] && v@.len() > 0
                    && key_ids(v@).no_duplicates(),
                None => !self@.contains_key(key@),
            },
    {
        proof {
            lemma_cc_map(self.entries@);
        }
        let n = self.entries.len();
        let mut i: usize = 0;
        while i < n
            invariant
                0 <= i <= n,
                n == self.entries@.len(),
                forall|j: int| 0 <= j < i ==> self.entries@[j].0@ != key@,
            decreases n - i,
        {
            if self.entries[i].0.id() == key.id() {
                return Some(&self.entries[i].1);
            }
            i = i + 1;
        }
        None
    }
}

/// The result map `m` records `b` as a collision partner of `a`.
pub open spec fn reported(m: Map<u64, Seq<u64>>, a: u64, b: u64) -> bool {
    m.contains_key(a) && m[a].contains(b)
}

/// The canonical order of two live circles: ascending center x, ties
/// broken by ascending key ([`entry_lt`] at the identifier level).
pub open spec fn circle_id_lt(m: Map<u64, Circle>, a: u64, b: u64) -> bool {
    m[a].center.x < m[b].center.x || (m[a].center.x == m[b].center.x && a < b)
}

/// An entry sequence lists `b` as a partner of `a`.
spec fn listed(s: Seq<(Key<Circle>, Vec<Key<Circle>>)>, a: u64, b: u64) -> bool {
    exists|i: int| 0 <= i < s.len() && (#[trigger] s[i]).0@ == a && key_ids(s[i].1@).contains(b)
}

/// Within the group `g`, some entry with key `a` at group position below
/// `bound` collides with some other entry with key `b` (the narrow-phase
/// pair relation, directional in `a`).
spec fn group_pair_upto(m: Map<u32, u32>, g: Seq<CircleEntry>, a: u64, b: u64, bound: int) -> bool {
    exists|i: int, j: int|
        0 <= i < bound && 0 <= j < g.len() && i != j && (#[trigger] g[i]).0@ == a
            && (#[trigger] g[j]).0@ == b && collides_pair(m, g[i].1, g[j].1)
}

/// The narrow-phase pair relation of a whole group.
spec fn group_pair(m: Map<u32, u32>, g: Seq<CircleEntry>, a: u64, b: u64) -> bool {
    group_pair_upto(m, g, a, b, g.len() as int)
}

/// Splitting an entry sequence splits its listed pairs.
proof fn lemma_listed_split(s: Seq<(Key<Circle>, Vec<Key<Circle>>)>, n: int)
    requires
        0 <= n <= s.len(),
    ensures
        forall|a: u64, b: u64|
            #[trigger] listed(s, a, b) <==> listed(s.take(n), a, b) || listed(s.skip(n), a, b),
{
    assert forall|a: u64, b: u64|
        #[trigger] listed(s, a, b) <==> listed(s.take(n), a, b) || listed(s.skip(n), a, b) by {
        if listed(s, a, b) {
            let i = choose|i: int|
                0 <= i < s.len() && (#[trigger] s[i]).0@ == a && key_ids(s[i].1@).contains(b);
            if i < n {
                assert(s.take(n)[i] == s[i]);
                assert(listed(s.take(n), a, b));
            } else {
                assert(s.skip(n)[i - n] == s[i]);
                assert(listed(s.skip(n), a, b));
            }
        }
        if listed(s.take(n), a, b) {
            let i = choose|i: int|
                0 <= i < s.take(n).len() && (#[trigger] s.take(n)[i]).0@ == a && key_ids(
                    s.take(n)[i].1@,
                ).contains(b);
            assert(s.take(n)[i] == s[i]);
            assert(listed(s, a, b));
        }
        if listed(s.skip(n), a, b) {
            let i = choose|i: int|
                0 <= i < s.skip(n).len() && (#[trigger] s.skip(n)[i]).0@ == a && key_ids(
                    s.skip(n)[i].1@,
                ).contains(b);
            assert(s.skip(n)[i] == s[i + n]);
            assert(listed(s, a, b));
        }
    }
}

/// The semantic content of the collision query: `b` is a partner of `a`
/// when both circles are live, distinct, fall in one broad-phase group of
/// the sorted sweep, intersect exactly, and `a`'s layer entry admits `b`'s
/// layer.
pub open spec fn collides_in_world(w: World, a: u64, b: u64) -> bool {
    &&& w.circles@.contains_key(a)
    &&& w.circles@.contains_key(b)
    &&& a != b
    &&& same_group(arrangement(w.circles@), a, b)
    &&& collides_pair(w.matrix(), w.circles@[a], w.circles@[b])
}

impl World {
    /// Runs the exact narrow phase over one broad-phase group, appending
    /// one entry per group member that has at least one partner.
    #[verifier::loop_isolation(false)]
    fn collisions_naive(
        collision_matrix: &CollisionMatrix,
        circles: &Vec<CircleEntry>,
        out: &mut Vec<(Key<Circle>, Vec<Key<Circle>>)>,
        Ghost(m): Ghost<Map<u64, Circle>>,
    )
        requires
            collision_matrix.wf(),
            distinct_keys(circles@),
            sorted_entries(circles@),
            forall|q: int|
                0 <= q < circles@.len() ==> m.contains_key((#[trigger] circles@[q]).0@)
                    && m[circles@[q].0@] == circles@[q].1,
        ensures
            final(out)@.len() >= old(out)@.len(),
            final(out)@.take(old(out)@.len() as int) == old(out)@,
            forall|t: int|
                old(out)@.len() <= t < final(out)@.len() ==> (#[trigger] final(out)@[t]).1@.len()
                    > 0 && in_group(circles@, final(out)@[t].0@) && key_ids(
                    final(out)@[t].1@,
                ).no_duplicates(),
            forall|t1: int, t2: int|
                old(out)@.len() <= t1 < t2 < final(out)@.len() ==> (#[trigger] final(out)@[t1]).0@
                    != (#[trigger] final(out)@[t2]).0@,
            forall|t: int, w1: int, w2: int|
                #![trigger final(out)@[t].1@[w1], final(out)@[t].1@[w2]]
                old(out)@.len() <= t < final(out)@.len() && 0 <= w1 < w2 < final(out)@[t].1@.len()
                    ==> circle_id_lt(m, final(out)@[t].1@[w1]@, final(out)@[t].1@[w2]@),
            forall|a: u64, b: u64|
                #[trigger] listed(final(out)@.skip(old(out)@.len() as int), a, b) <==> group_pair(
                    collision_matrix@,
                    circles@,
                    a,
                    b,
                ),
    {
        let base = out.len();
        let n = circles.len();
        let mut i: usize = 0;
        while i < n
            invariant
                0 <= i <= n,
                n == circles@.len(),
                base == old(out)@.len(),
                out@.len() >= base,
                out@.take(base as int) == old(out)@,
                forall|t: int|
                    base <= t < out@.len() ==> (#[trigger] out@[t]).1@.len() > 0 && key_ids(
                        out@[t].1@,
                    ).no_duplicates() && exists|p: int|
                        0 <= p < i && circles@[p].0@ == out@[t].0@,
                forall|t1: int, t2: int|
                    base <= t1 < t2 < out@.len() ==> (#[trigger] out@[t1]).0@ != (#[trigger] out@[t2]).0@,
                forall|t: int, w1: int, w2: int|
                    #![trigger out@[t].1@[w1], out@[t].1@[w2]]
                    base <= t < out@.len() && 0 <= w1 < w2 < out@[t].1@.len() ==> circle_id_lt(
                        m,
                        out@[t].1@[w1]@,
                        out@[t].1@[w2]@,
                    ),
                forall|a: u64, b: u64|
                    #[trigger] listed(out@.skip(base as int), a, b) <==> group_pair_upto(
                        collision_matrix@,
                        circles@,
                        a,
                        b,
                        i as int,
                    ),
            decreases n - i,
        {
            let mut collided: Vec<Key<Circle>> = Vec::new();
            let mut j: usize = 0;
            while j < n
                invariant
                    0 <= j <= n,
                    key_ids(collided@).no_duplicates(),
                    forall|w1: int, w2: int|
                        #![trigger collided@[w1], collided@[w2]]
                        0 <= w1 < w2 < collided@.len() ==> circle_id_lt(
                            m,
                            collided@[w1]@,
                            collided@[w2]@,
                        ),
                    forall|b: u64|
                        #[trigger] key_ids(collided@).contains(b) <==> exists|q: int|
                            0 <= q < j && q != i && circles@[q].0@ == b && collides_pair(
                                collision_matrix@,
                                circles@[i as int].1,
                                circles@[q].1,
                            ),
                decreases n - j,
            {
                if j != i {
                    let hit = circles[i].1.intersects(&circles[j].1) && Self::layers_collide(
                        collision_matrix,
                        &circles[i].1,
                        &circles[j].1,
                    );
                    if hit {
                        let ghost before = collided@;
                        collided.push(circles[j].0);
                        proof {
                            assert(key_ids(collided@) =~= key_ids(before).push(
                                circles@[j as int].0@,
                            ));
                            assert forall|w1: int, w2: int|
                                #![trigger collided@[w1], collided@[w2]]
                                0 <= w1 < w2 < collided@.len() implies circle_id_lt(
                                m,
                                collided@[w1]@,
                                collided@[w2]@,
                            ) by {
                                if w2 < collided@.len() - 1 {
                                    assert(collided@[w1] == before[w1]
                                        && collided@[w2] == before[w2]);
                                } else {
                                    assert(collided@[w1] == before[w1]);
                                    assert(key_ids(before)[w1] == before[w1]@);
                                    assert(key_ids(before).contains(before[w1]@));
                                    let q = choose|q: int|
                                        0 <= q < j && q != i && circles@[q].0@ == before[w1]@
                                            && collides_pair(
                                            collision_matrix@,
                                            circles@[i as int].1,
                                            circles@[q].1,
                                        );
                                    assert(entry_lt(circles@[q], circles@[j as int]));
                                    assert(m[collided@[w1]@] == circles@[q].1);
                                    assert(m[collided@[w2]@] == circles@[j as int].1);
                                }
                            }
                            assert(key_ids(collided@).no_duplicates()) by {
                                assert forall|w1: int, w2: int|
                                    0 <= w1 < w2 < key_ids(collided@).len() implies key_ids(
                                    collided@,
                                )[w1] != key_ids(collided@)[w2] by {
                                    if w2 == key_ids(collided@).len() - 1 {
                                        assert(key_ids(collided@)[w1] == key_ids(before)[w1]);
                                        if key_ids(before)[w1] == circles@[j as int].0@ {
                                            assert(key_ids(before).contains(
                                                circles@[j as int].0@,
                                            ));
                                            let q = choose|q: int|
                                                0 <= q < j && q != i && circles@[q].0@
                                                    == circles@[j as int].0@ && collides_pair(
                                                    collision_matrix@,
                                                    circles@[i as int].1,
                                                    circles@[q].1,
                                                );
                                            assert(false);
                                        }
                                    } else {
                                        assert(key_ids(collided@)[w1] == key_ids(before)[w1]
                                            && key_ids(collided@)[w2] == key_ids(before)[w2]);
                                    }
                                }
                            }
                            assert forall|b: u64| #[trigger]
                                key_ids(collided@).contains(b) implies exists|q: int|
                                0 <= q < j + 1 && q != i && circles@[q].0@ == b && collides_pair(
                                    collision_matrix@,
                                    circles@[i as int].1,
                                    circles@[q].1,
                                ) by {
                                if b == circles@[j as int].0@ {
                                    assert(0 <= j < j + 1 && j != i && circles@[j as int].0@ == b
                                        && collides_pair(
                                        collision_matrix@,
                                        circles@[i as int].1,
                                        circles@[j as int].1,
                                    ));
                                } else {
                                    assert(key_ids(before).contains(b));
                                    let q = choose|q: int|
                                        0 <= q < j && q != i && circles@[q].0@ == b
                                            && collides_pair(
                                            collision_matrix@,
                                            circles@[i as int].1,
                                            circles@[q].1,
                                        );
                                    assert(0 <= q < j + 1);
                                }
                            }
                            assert forall|b: u64|
                                (exists|q: int|
                                    0 <= q < j + 1 && q != i && circles@[q].0@ == b
                                        && collides_pair(
                                        collision_matrix@,
                                        circles@[i as int].1,
                                        circles@[q].1,
                                    )) implies #[trigger] key_ids(collided@).contains(b) by {
                                let q = choose|q: int|
                                    0 <= q < j + 1 && q != i && circles@[q].0@ == b
                                        && collides_pair(
                                        collision_matrix@,
                                        circles@[i as int].1,
                                        circles@[q].1,
                                    );
                                if q < j {
                                    assert(key_ids(before).contains(b));
                                    let w = choose|w: int|
                                        0 <= w < key_ids(before).len() && key_ids(before)[w] == b;
                                    assert(key_ids(collided@)[w] == b);
                                } else {
                                    assert(key_ids(collided@).last() == b);
                                }
                            }
                        }
                    }
                }
                j = j + 1;
            }
            if collided.len() > 0 {
                let ghost before_out = out@;
                out.push((circles[i].0, collided));
                proof {
                    assert(out@.take(base as int) =~= before_out.take(base as int));
                    assert forall|t: int|
                        base <= t < out@.len() implies (#[trigger] out@[t]).1@.len() > 0 && exists|
                        p: int,
                    | 0 <= p < i + 1 && circles@[p].0@ == out@[t].0@ by {
                        if t < out@.len() - 1 {
                            assert(out@[t] == before_out[t]);
                            let p = choose|p: int| 0 <= p < i && circles@[p].0@ == before_out[t].0@;
                            assert(0 <= p < i + 1 && circles@[p].0@ == out@[t].0@);
                        } else {
                            assert(out@[t].0@ == circles@[i as int].0@);
                            assert(0 <= i < i + 1);
                        }
                    }
                    assert forall|t1: int, t2: int|
                        base <= t1 < t2 < out@.len() implies (#[trigger] out@[t1]).0@ != (
                    #[trigger] out@[t2]).0@ by {
                        if t2 == out@.len() - 1 {
                            assert(out@[t1] == before_out[t1]);
                            let p = choose|p: int| 0 <= p < i && circles@[p].0@ == before_out[t1].0@;
                            assert(circles@[p].0@ != circles@[i as int].0@);
                        } else {
                            assert(out@[t1] == before_out[t1] && out@[t2] == before_out[t2]);
                        }
                    }
                    assert(out@.skip(base as int) =~= before_out.skip(base as int).push(
                        out@.last(),
                    ));
                    let suf = out@.skip(base as int);
                    let presuf = before_out.skip(base as int);
                    assert forall|a: u64, b: u64| #[trigger]
                        listed(suf, a, b) implies group_pair_upto(
                        collision_matrix@,
                        circles@,
                        a,
                        b,
                        i + 1,
                    ) by {
                        let t = choose|t: int|
                            0 <= t < suf.len() && (#[trigger] suf[t]).0@ == a && key_ids(
                                suf[t].1@,
                            ).contains(b);
                        if t < presuf.len() {
                            assert(presuf[t] == suf[t]);
                            assert(listed(presuf, a, b));
                            assert(group_pair_upto(collision_matrix@, circles@, a, b, i as int));
                            let (p, q) = choose|p: int, q: int|
                                0 <= p < i && 0 <= q < circles@.len() && p != q && (
                                #[trigger] circles@[p]).0@ == a && (#[trigger] circles@[q]).0@ == b
                                    && collides_pair(
                                    collision_matrix@,
                                    circles@[p].1,
                                    circles@[q].1,
                                );
                            assert(0 <= p < i + 1);
                        } else {
                            assert(suf[t] == out@.last());
                            assert(a == circles@[i as int].0@);
                            assert(key_ids(collided@).contains(b));
                            let q = choose|q: int|
                                0 <= q < n && q != i && circles@[q].0@ == b && collides_pair(
                                    collision_matrix@,
                                    circles@[i as int].1,
                                    circles@[q].1,
                                );
                            assert(0 <= i < i + 1 && 0 <= q < circles@.len() && i != q
                                && circles@[i as int].0@ == a && circles@[q].0@ == b);
                        }
                    }
                    assert forall|a: u64, b: u64|
                        group_pair_upto(
                            collision_matrix@,
                            circles@,
                            a,
                            b,
                            i + 1,
                        ) implies #[trigger] listed(suf, a, b) by {
                        let (p, q) = choose|p: int, q: int|
                            0 <= p < i + 1 && 0 <= q < circles@.len() && p != q && (
                            #[trigger] circles@[p]).0@ == a && (#[trigger] circles@[q]).0@ == b
                                && collides_pair(collision_matrix@, circles@[p].1, circles@[q].1);
                        if p < i {
                            assert(group_pair_upto(collision_matrix@, circles@, a, b, i as int));
                            assert(listed(presuf, a, b));
                            let t = choose|t: int|
                                0 <= t < presuf.len() && (#[trigger] presuf[t]).0@ == a && key_ids(
                                    presuf[t].1@,
                                ).contains(b);
                            assert(suf[t] == presuf[t]);
                        } else {
                            assert(a == circles@[i as int].0@);
                            assert(key_ids(collided@).contains(b));
                            assert(suf.last().0@ == a && key_ids(suf.last().1@).contains(b));
                            assert(suf[suf.len() - 1] == suf.last());
                        }
                    }
                }
            } else {
                proof {
                    let suf = out@.skip(base as int);
                    assert forall|a: u64, b: u64| #[trigger]
                        listed(suf, a, b) implies group_pair_upto(
                        collision_matrix@,
                        circles@,
                        a,
                        b,
                        i + 1,
                    ) by {
                        assert(group_pair_upto(collision_matrix@, circles@, a, b, i as int));
                        let (p, q) = choose|p: int, q: int|
                            0 <= p < i && 0 <= q < circles@.len() && p != q && (
                            #[trigger] circles@[p]).0@ == a && (#[trigger] circles@[q]).0@ == b
                                && collides_pair(collision_matrix@, circles@[p].1, circles@[q].1);
                        assert(0 <= p < i + 1);
                    }
                    assert forall|a: u64, b: u64|
                        group_pair_upto(
                            collision_matrix@,
                            circles@,
                            a,
                            b,
                            i + 1,
                        ) implies #[trigger] listed(suf, a, b) by {
                        let (p, q) = choose|p: int, q: int|
                            0 <= p < i + 1 && 0 <= q < circles@.len() && p != q && (
                            #[trigger] circles@[p]).0@ == a && (#[trigger] circles@[q]).0@ == b
                                && collides_pair(collision_matrix@, circles@[p].1, circles@[q].1);
                        if p == i {
                            assert(exists|q2: int|
                                0 <= q2 < n && q2 != i && circles@[q2].0@ == b && collides_pair(
                                    collision_matrix@,
                                    circles@[i as int].1,
                                    circles@[q2].1,
                                ));
                            assert(key_ids(collided@).contains(b));
                            assert(false);
                        } else {
                            assert(group_pair_upto(collision_matrix@, circles@, a, b, i as int));
                        }
                    }
                }
            }
            i = i + 1;
        }
    }
}

} // verus!

// The public collision query.

verus! {

/// Whether any member of `active` x-overlaps the entry `e`.
fn any_x_overlap(active: &Vec<CircleEntry>, e: &CircleEntry) -> (r: bool)
    ensures
        r == exists|j: int|
            0 <= j < active@.len() && x_overlap_spec((#[trigger] active@[j]).1, e.1),
{
    let n = active.len();
    let mut j: usize = 0;
    while j < n
        invariant
            0 <= j <= n,
            n == active@.len(),
            forall|p: int| 0 <= p < j ==> !x_overlap_spec((#[trigger] active@[p]).1, e.1),
        decreases n - j,
    {
        if active[j].1.intersects_x_axis(&e.1) {
            return true;
        }
        j = j + 1;
    }
    false
}

impl World {
    /// Computes the full collision graph of the current frame: sorts the
    /// circles by center x, groups them by chained x-overlap (the broad
    /// phase), and runs the exact pairwise test inside each group (the
    /// narrow phase).
    ///
    /// The result records `b` as a partner of `a` exactly when the two
    /// distinct live circles fall into one broad-phase group, intersect,
    /// and `a`'s layer entry admits `b`'s layer ([`collides_in_world`]).
    #[verifier::loop_isolation(false)]
    #[verifier::rlimit(60)]
    pub fn collisions(&self) -> (r: CircleCollisions)
        requires
            self.wf(),
        ensures
            r.wf(),
            forall|a: u64, b: u64| #[trigger] reported(r@, a, b) <==> collides_in_world(*self, a, b),
            forall|a: u64| #[trigger] r@.contains_key(a) ==> exists|b: u64| reported(r@, a, b),
            forall|a: u64, w1: int, w2: int|
                #![trigger r@[a][w1], r@[a][w2]]
                r@.contains_key(a) && 0 <= w1 < w2 < r@[a].len() ==> circle_id_lt(
                    self.circles@,
                    r@[a][w1],
                    r@[a][w2],
                ),
    {
        let ghost m = self.circles@;
        let it = self.circles.iter();
        let n0 = it.len();
        let mut v: Vec<CircleEntry> = Vec::new();
        let mut idx: usize = 0;
        while idx < n0
            invariant
                0 <= idx <= n0,
                n0 == it@.len(),
                v@ == it@.take(idx as int),
            decreases n0 - idx,
        {
            let e = it[idx];
            v.push(e);
            proof {
                assert(v@ =~= it@.take(idx + 1));
            }
            idx = idx + 1;
        }
        proof {
            assert(v@ =~= it@);
        }
        if v.len() == 0 {
            let r = CircleCollisions { entries: Vec::new() };
            proof {
                assert(r.entries@.len() == 0);
                assert forall|a: u64| !(#[trigger] m.contains_key(a)) by {
                    if m.contains_key(a) {
                        let i = choose|i: int| 0 <= i < it@.len() && it@[i].0@ == a;
                    }
                }
                assert forall|a: u64, b: u64| #[trigger]
                    reported(r@, a, b) <==> collides_in_world(*self, a, b) by {
                    assert(!r@.contains_key(a));
                    assert(!m.contains_key(a));
                }
            }
            return r;
        }
        proof {
            assert(distinct_keys(v@)) by {
                assert forall|i: int, j: int| 0 <= i < j < v@.len() implies (#[trigger] v@[i]).0@
                    != (#[trigger] v@[j]).0@ by {
                    assert(v@[i] == it@[i] && v@[j] == it@[j]);
                }
            }
        }
        let ghost orig = v@;
        sort_entries(&mut v);
        proof {
            broadcast use vstd::seq_lib::group_to_multiset_ensures;

            assert forall|i: int| 0 <= i < v@.len() implies m.contains_key((#[trigger] v@[i]).0@)
                && m[v@[i].0@] == v@[i].1 by {
                assert(v@.contains(v@[i]));
                assert(v@.to_multiset().count(v@[i]) > 0);
                assert(orig.to_multiset().count(v@[i]) > 0);
                assert(orig.contains(v@[i]));
                let p = choose|p: int| 0 <= p < orig.len() && orig[p] == v@[i];
                assert(it@[p] == v@[i]);
            }
            assert forall|k: u64| #[trigger] m.contains_key(k) implies exists|i: int|
                0 <= i < v@.len() && v@[i].0@ == k by {
                let p = choose|p: int| 0 <= p < it@.len() && it@[p].0@ == k;
                assert(orig[p] == it@[p]);
                assert(orig.contains(it@[p]));
                assert(orig.to_multiset().count(it@[p]) > 0);
                assert(v@.to_multiset().count(it@[p]) > 0);
                assert(v@.contains(it@[p]));
                let i = choose|i: int| 0 <= i < v@.len() && v@[i] == it@[p];
                assert(v@[i].0@ == k);
            }
            assert(arranges(m, v@));
            lemma_arrangement_is(m, v@);
        }
        let n = v.len();
        let mut closed: Vec<Vec<CircleEntry>> = Vec::new();
        let mut active: Vec<CircleEntry> = Vec::new();
        active.push(v[0]);
        proof {
            assert(active@ =~= seq![v@[0]]);
        }
        let mut i: usize = 1;
        while i < n
            invariant
                1 <= i <= n,
                n == v@.len(),
                closed@.map_values(|g: Vec<CircleEntry>| g@) == sweep_state(v@, i as int).0,
                active@ == sweep_state(v@, i as int).1,
            decreases n - i,
        {
            let e = v[i];
            let overlaps = any_x_overlap(&active, &e);
            let ghost old_closed = closed@.map_values(|g: Vec<CircleEntry>| g@);
            let ghost old_active = active@;
            if overlaps {
                active.push(e);
                proof {
                    assert(active@ =~= old_active.push(v@[i as int]));
                    assert(sweep_state(v@, i + 1) == (old_closed, old_active.push(v@[i as int])));
                }
            } else {
                closed.push(active);
                active = Vec::new();
                active.push(e);
                proof {
                    assert(closed@.map_values(|g: Vec<CircleEntry>| g@) =~= old_closed.push(
                        old_active,
                    ));
                    assert(active@ =~= seq![v@[i as int]]);
                    assert(sweep_state(v@, i + 1) == (
                        old_closed.push(old_active),
                        seq![v@[i as int]],
                    ));
                }
            }
            i = i + 1;
        }
        closed.push(active);
        let ghost gs = sweep_groups(v@);
        proof {
            assert(closed@.map_values(|g: Vec<CircleEntry>| g@) =~= gs);
            lemma_sweep_groups_props(v@);
        }
        let gn = closed.len();
        let mut entries_acc: Vec<(Key<Circle>, Vec<Key<Circle>>)> = Vec::new();
        let mut gi: usize = 0;
        while gi < gn
            invariant
                0 <= gi <= gn,
                gn == closed@.len(),
                closed@.map_values(|g: Vec<CircleEntry>| g@) == gs,
                gs == sweep_groups(v@),
                forall|t: int|
                    0 <= t < entries_acc@.len() ==> (#[trigger] entries_acc@[t]).1@.len() > 0
                        && key_ids(entries_acc@[t].1@).no_duplicates() && exists|g: int|
                        0 <= g < gi && in_group(gs[g], entries_acc@[t].0@),
                forall|t1: int, t2: int|
                    0 <= t1 < t2 < entries_acc@.len() ==> (#[trigger] entries_acc@[t1]).0@ != (
                    #[trigger] entries_acc@[t2]).0@,
                forall|t: int, w1: int, w2: int|
                    #![trigger entries_acc@[t].1@[w1], entries_acc@[t].1@[w2]]
                    0 <= t < entries_acc@.len() && 0 <= w1 < w2 < entries_acc@[t].1@.len()
                        ==> circle_id_lt(m, entries_acc@[t].1@[w1]@, entries_acc@[t].1@[w2]@),
                forall|a: u64, b: u64|
                    #[trigger] listed(entries_acc@, a, b) <==> exists|g: int|
                        0 <= g < gi && group_pair(self.matrix(), gs[g], a, b),
            decreases gn - gi,
        {
            let ghost before = entries_acc@;
            let ghost g_spec = gs[gi as int];
            proof {
                assert(closed@.map_values(|g: Vec<CircleEntry>| g@)[gi as int] == closed@[gi as int]@);
                assert(closed@[gi as int]@ == g_spec);
                assert(distinct_keys(g_spec));
                assert(sorted_entries(g_spec));
                assert forall|q: int| 0 <= q < g_spec.len() implies m.contains_key(
                    (#[trigger] g_spec[q]).0@,
                ) && m[g_spec[q].0@] == g_spec[q].1 by {
                    assert(group_sub(g_spec, v@, v@.len() as int));
                    let w = choose|w: int| 0 <= w < v@.len() && v@[w] == g_spec[q];
                    assert(m.contains_key(v@[w].0@) && m[v@[w].0@] == v@[w].1);
                }
            }
            Self::collisions_naive(&self.collision_matrix, &closed[gi], &mut entries_acc, Ghost(m));
            proof {
                lemma_listed_split(entries_acc@, before.len() as int);
                assert(entries_acc@.take(before.len() as int) == before);
                assert forall|t: int, w1: int, w2: int|
                    #![trigger entries_acc@[t].1@[w1], entries_acc@[t].1@[w2]]
                    0 <= t < entries_acc@.len() && 0 <= w1 < w2 < entries_acc@[t].1@.len()
                        implies circle_id_lt(m, entries_acc@[t].1@[w1]@, entries_acc@[t].1@[w2]@) by {
                    if t < before.len() {
                        assert(entries_acc@[t] == before[t]);
                        assert(before[t].1@[w1] == before[t].1@[w1]);
                    }
                }
                let suf = entries_acc@.skip(before.len() as int);
                assert forall|t: int|
                    0 <= t < entries_acc@.len() implies (#[trigger] entries_acc@[t]).1@.len() > 0
                    && key_ids(entries_acc@[t].1@).no_duplicates() && exists|g: int|
                    0 <= g < gi + 1 && in_group(gs[g], entries_acc@[t].0@) by {
                    if t < before.len() {
                        assert(entries_acc@[t] == before[t]);
                        let g = choose|g: int| 0 <= g < gi && in_group(gs[g], before[t].0@);
                        assert(0 <= g < gi + 1 && in_group(gs[g], entries_acc@[t].0@));
                    } else {
                        assert(in_group(g_spec, entries_acc@[t].0@));
                        assert(0 <= gi < gi + 1 && in_group(gs[gi as int], entries_acc@[t].0@));
                    }
                }
                assert forall|t1: int, t2: int|
                    0 <= t1 < t2 < entries_acc@.len() implies (#[trigger] entries_acc@[t1]).0@ != (
                #[trigger] entries_acc@[t2]).0@ by {
                    if t2 < before.len() {
                        assert(entries_acc@[t1] == before[t1] && entries_acc@[t2] == before[t2]);
                    } else if t1 >= before.len() {
                    } else {
                        assert(entries_acc@[t1] == before[t1]);
                        let g = choose|g: int| 0 <= g < gi && in_group(gs[g], before[t1].0@);
                        assert(in_group(g_spec, entries_acc@[t2].0@));
                        if entries_acc@[t1].0@ == entries_acc@[t2].0@ {
                            assert(in_group(gs[g], entries_acc@[t2].0@));
                        }
                    }
                }
                assert forall|a: u64, b: u64| #[trigger]
                    listed(entries_acc@, a, b) <==> exists|g: int|
                    0 <= g < gi + 1 && group_pair(self.matrix(), gs[g], a, b) by {
                    if listed(entries_acc@, a, b) {
                        if listed(before, a, b) {
                            let g = choose|g: int|
                                0 <= g < gi && group_pair(self.matrix(), gs[g], a, b);
                            assert(0 <= g < gi + 1 && group_pair(self.matrix(), gs[g], a, b));
                        } else {
                            assert(listed(suf, a, b));
                            assert(group_pair(self.matrix(), g_spec, a, b));
                            assert(0 <= gi < gi + 1 && group_pair(
                                self.matrix(),
                                gs[gi as int],
                                a,
                                b,
                            ));
                        }
                    }
                    if exists|g: int| 0 <= g < gi + 1 && group_pair(self.matrix(), gs[g], a, b) {
                        let g = choose|g: int|
                            0 <= g < gi + 1 && group_pair(self.matrix(), gs[g], a, b);
                        if g < gi {
                            assert(listed(before, a, b));
                            assert(listed(entries_acc@.take(before.len() as int), a, b));
                        } else {
                            assert(group_pair(self.matrix(), g_spec, a, b));
                            assert(listed(suf, a, b));
                        }
                    }
                }
            }
            gi = gi + 1;
        }
        let r = CircleCollisions { entries: entries_acc };
        proof {
            lemma_cc_map(r.entries@);
            let s = v@;
            let mx = self.matrix();
            assert(arrangement(m) == s);
            assert forall|a: u64, b: u64| #[trigger]
                reported(r@, a, b) <==> collides_in_world(*self, a, b) by {
                if reported(r@, a, b) {
                    let t = choose|t: int| 0 <= t < r.entries@.len() && r.entries@[t].0@ == a;
                    assert(r@[a] == key_ids(r.entries@[t].1@));
                    assert(listed(r.entries@, a, b));
                    let g = choose|g: int| 0 <= g < gn && group_pair(mx, gs[g], a, b);
                    let (p, q) = choose|p: int, q: int|
                        0 <= p < gs[g].len() && 0 <= q < gs[g].len() && p != q && (
                        #[trigger] gs[g][p]).0@ == a && (#[trigger] gs[g][q]).0@ == b
                            && collides_pair(mx, gs[g][p].1, gs[g][q].1);
                    assert(group_sub(gs[g], s, s.len() as int));
                    let w1 = choose|w: int| 0 <= w < s.len() && s[w] == gs[g][p];
                    let w2 = choose|w: int| 0 <= w < s.len() && s[w] == gs[g][q];
                    assert(m.contains_key(a) && m[a] == gs[g][p].1);
                    assert(m.contains_key(b) && m[b] == gs[g][q].1);
                    assert(a != b);
                    assert(in_group(gs[g], a) && in_group(gs[g], b));
                    assert(same_group(s, a, b));
                } else {
                    if collides_in_world(*self, a, b) {
                        let g = choose|g: int|
                            0 <= g < gs.len() && in_group(#[trigger] gs[g], a) && in_group(
                                gs[g],
                                b,
                            );
                        let p = choose|p: int| 0 <= p < gs[g].len() && (#[trigger] gs[g][p]).0@ == a;
                        let q = choose|q: int| 0 <= q < gs[g].len() && (#[trigger] gs[g][q]).0@ == b;
                        assert(p != q);
                        assert(group_sub(gs[g], s, s.len() as int));
                        let w1 = choose|w: int| 0 <= w < s.len() && s[w] == gs[g][p];
                        let w2 = choose|w: int| 0 <= w < s.len() && s[w] == gs[g][q];
                        assert(gs[g][p].1 == m[a] && gs[g][q].1 == m[b]);
                        assert(collides_pair(mx, gs[g][p].1, gs[g][q].1));
                        assert(group_pair(mx, gs[g], a, b));
                        assert(listed(r.entries@, a, b));
                        let t = choose|t: int|
                            0 <= t < r.entries@.len() && (#[trigger] r.entries@[t]).0@ == a
                                && key_ids(r.entries@[t].1@).contains(b);
                        assert(r@.contains_key(a) && r@[a] == key_ids(r.entries@[t].1@));
                        assert(false);
                    }
                }
            }
            assert forall|a: u64| #[trigger] r@.contains_key(a) implies exists|b: u64|
                reported(r@, a, b) by {
                let t = choose|t: int| 0 <= t < r.entries@.len() && r.entries@[t].0@ == a;
                assert(r.entries@[t].1@.len() > 0);
                let b = key_ids(r.entries@[t].1@)[0];
                assert(key_ids(r.entries@[t].1@).contains(b));
                assert(r@[a] == key_ids(r.entries@[t].1@));
                assert(reported(r@, a, b));
            }
            assert forall|a: u64, w1: int, w2: int|
                #![trigger r@[a][w1], r@[a][w2]]
                r@.contains_key(a) && 0 <= w1 < w2 < r@[a].len() implies circle_id_lt(
                self.circles@,
                r@[a][w1],
                r@[a][w2],
            ) by {
                let t = choose|t: int| 0 <= t < r.entries@.len() && r.entries@[t].0@ == a;
                assert(r@[a] == key_ids(r.entries@[t].1@));
                assert(r.entries@[t].1@[w1] == r.entries@[t].1@[w1]);
                assert(key_ids(r.entries@[t].1@)[w1] == r.entries@[t].1@[w1]@);
                assert(key_ids(r.entries@[t].1@)[w2] == r.entries@[t].1@[w2]@);
                assert(circle_id_lt(m, r.entries@[t].1@[w1]@, r.entries@[t].1@[w2]@));
            }
        }
        r
    }
}

} // verus!

// The directional collision law.

verus! {

/// Two layers with the same bit are the same layer.
pub proof fn lemma_layer_view_injective(a: Layer, b: Layer)
    requires
        a@ == b@,
    ensures
        a == b,
{
}

/// Law: collision symmetry within a matrix entry.  Whenever the collision
/// matrix's entry for circle `a`'s layer masks in circle `b`'s layer, the
/// two distinct circles intersect, and the broad phase put them in one
/// group, then `a`'s result set contains `b`.  (The test is directional:
/// it consults `a`'s own matrix entry, so a symmetric result needs a
/// symmetrically populated matrix.)
pub proof fn lemma_masked_intersecting_pair_reported(
    w: World,
    m: Map<u64, Seq<u64>>,
    a: u64,
    b: u64,
)
    requires
        forall|x: u64, y: u64| #[trigger] reported(m, x, y) <==> collides_in_world(w, x, y),
        w.circles@.contains_key(a),
        w.circles@.contains_key(b),
        a != b,
        same_group(arrangement(w.circles@), a, b),
        w.matrix().contains_key(w.circles@[a].layer@),
        w.matrix()[w.circles@[a].layer@] & w.circles@[b].layer@ != 0,
        intersects_spec(w.circles@[a], w.circles@[b]),
    ensures
        reported(m, a, b),
{
    assert(collides_in_world(w, a, b));
}

} // verus!

//! A bounding-volume tree over a fixed set of boxes.
//!
//! The tree is built once, by splitting the boxes at the median along the
//! axis on which they spread the most, and is only read afterwards. A query
//! descends into a subtree only where the box around it meets the query.

use vstd::prelude::*;
use crate::aabb::{lemma_enclosed_intersects, Aabb};
use crate::vector::Axis;

verus! {

/// A box with the id of what it stands for.
#[derive(Clone, Copy, Debug, PartialEq, Eq, Structural)]
pub struct Leaf {
    pub id: usize,
    pub aabb: Aabb,
}

enum Node {
    Tip(Leaf),
    Fork { aabb: Aabb, left: Box<Node>, right: Box<Node> },
}

/// An immutable spatial index over a set of leaves.
///
/// Its view is the sequence of its leaves, from left to right.
pub struct BoundingVolumeTree {
    root: Option<Box<Node>>,
    count: usize,
}

/// The ids of the leaves whose box meets `query`, in the order of `leaves`.
pub open spec fn hits(leaves: Seq<Leaf>, query: Aabb) -> Seq<usize>
    decreases leaves.len(),
{
    if leaves.len() == 0 {
        Seq::empty()
    } else if leaves.last().aabb.spec_intersects(query) {
        hits(leaves.drop_last(), query).push(leaves.last().id)
    } else {
        hits(leaves.drop_last(), query)
    }
}

/// Some leaf with the id `id` has a box that meets `query`.
pub open spec fn is_hit(leaves: Seq<Leaf>, query: Aabb, id: usize) -> bool {
    exists|i: int|
        0 <= i < leaves.len() && (#[trigger] leaves[i]).id == id && leaves[i].aabb.spec_intersects(
            query,
        )
}

/// `bounds` is the smallest box around the boxes of `leaves`: it encloses
/// each of them, and each of its six faces is the face of one of them.
pub open spec fn is_enclosure(bounds: Aabb, leaves: Seq<Leaf>) -> bool {
    &&& forall|i: int| 0 <= i < leaves.len() ==> bounds.encloses(#[trigger] leaves[i].aabb)
    &&& exists|i: int| 0 <= i < leaves.len() && (#[trigger] leaves[i]).aabb.mins.x == bounds.mins.x
    &&& exists|i: int| 0 <= i < leaves.len() && (#[trigger] leaves[i]).aabb.mins.y == bounds.mins.y
    &&& exists|i: int| 0 <= i < leaves.len() && (#[trigger] leaves[i]).aabb.mins.z == bounds.mins.z
    &&& exists|i: int| 0 <= i < leaves.len() && (#[trigger] leaves[i]).aabb.maxs.x == bounds.maxs.x
    &&& exists|i: int| 0 <= i < leaves.len() && (#[trigger] leaves[i]).aabb.maxs.y == bounds.maxs.y
    &&& exists|i: int| 0 <= i < leaves.len() && (#[trigger] leaves[i]).aabb.maxs.z == bounds.maxs.z
}

/// The smallest box around the boxes of `leaves`, of which there is at
/// least one.
pub open spec fn enclosure(leaves: Seq<Leaf>) -> Aabb {
    choose|bounds: Aabb| is_enclosure(bounds, leaves)
}

/// The order of the leaves of a tree that was built by median splits: the
/// first half of the leaves, rounded down, stands in the left subtree and
/// the rest in the right one; along the axis on which the box around all
/// of them is widest, no centre of the first half lies beyond a centre of
/// the rest; and each half is in such an order itself.
pub open spec fn median_split(leaves: Seq<Leaf>) -> bool
    decreases leaves.len(),
{
    if leaves.len() <= 1 {
        true
    } else {
        let mid = (leaves.len() / 2) as int;
        &&& split_along(leaves.take(mid), leaves.skip(mid), enclosure(leaves).spec_widest_axis())
        &&& median_split(leaves.take(mid))
        &&& median_split(leaves.skip(mid))
    }
}

/// No two leaves have the same id.
pub open spec fn distinct_ids(leaves: Seq<Leaf>) -> bool {
    forall|i: int, j: int|
        0 <= i < leaves.len() && 0 <= j < leaves.len() && i != j ==> (#[trigger] leaves[i]).id != (
        #[trigger] leaves[j]).id
}

/// Twice the centre, along `axis`, of the box of `leaves[i]`.
pub open spec fn centre_key(leaves: Seq<Leaf>, i: int, axis: Axis) -> int {
    leaves[i].aabb.centre2(axis)
}

/// Along `axis` the centres of the boxes never decrease.
pub open spec fn sorted_along(leaves: Seq<Leaf>, axis: Axis) -> bool {
    forall|a: int, b: int|
        0 <= a < b < leaves.len() ==> #[trigger] centre_key(leaves, a, axis) <= #[trigger] centre_key(
            leaves,
            b,
            axis,
        )
}

/// Along `axis` no centre of `left` lies beyond a centre of `right`.
pub open spec fn split_along(left: Seq<Leaf>, right: Seq<Leaf>, axis: Axis) -> bool {
    forall|a: int, b: int|
        0 <= a < left.len() && 0 <= b < right.len() ==> #[trigger] centre_key(left, a, axis)
            <= #[trigger] centre_key(right, b, axis)
}

/// Two to the power of `e`.
pub open spec fn two_pow(e: nat) -> nat
    decreases e,
{
    if e == 0 {
        1
    } else {
        2 * two_pow((e - 1) as nat)
    }
}

impl Node {
    spec fn leaves(self) -> Seq<Leaf>
        decreases self,
    {
        match self {
            Node::Tip(leaf) => seq![leaf],
            Node::Fork { aabb, left, right } => left.leaves() + right.leaves(),
        }
    }

    spec fn bounds(self) -> Aabb {
        match self {
            Node::Tip(leaf) => leaf.aabb,
            Node::Fork { aabb, left, right } => aabb,
        }
    }

    spec fn height(self) -> nat
        decreases self,
    {
        match self {
            Node::Tip(leaf) => 0,
            Node::Fork { aabb, left, right } => if left.height() >= right.height() {
                left.height() + 1
            } else {
                right.height() + 1
            },
        }
    }

    /// Every fork carries the smallest box around its two subtrees. Its two
    /// subtrees hold the same number of leaves, or the right one more, and
    /// along the axis on which the fork's box is widest no centre on the
    /// left lies beyond a centre on the right.
    spec fn wf(self) -> bool
        decreases self,
    {
        match self {
            Node::Tip(leaf) => true,
            Node::Fork { aabb, left, right } => {
                &&& left.wf()
                &&& right.wf()
                &&& aabb == left.bounds().spec_merged(right.bounds())
                &&& left.leaves().len() <= right.leaves().len() <= left.leaves().len() + 1
                &&& split_along(left.leaves(), right.leaves(), aabb.spec_widest_axis())
            },
        }
    }

    proof fn lemma_leaves_nonempty(self)
        ensures
            self.leaves().len() >= 1,
        decreases self,
    {
        match self {
            Node::Tip(leaf) => {},
            Node::Fork { aabb, left, right } => {
                left.lemma_leaves_nonempty();
            },
        }
    }

    proof fn lemma_bounds_enclose(self)
        requires
            self.wf(),
        ensures
            is_enclosure(self.bounds(), self.leaves()),
        decreases self,
    {
        match self {
            Node::Tip(leaf) => {
                assert(self.leaves()[0] == leaf);
            },
            Node::Fork { aabb, left, right } => {
                left.lemma_bounds_enclose();
                right.lemma_bounds_enclose();
                lemma_enclosure_concat(left.bounds(), left.leaves(), right.bounds(), right.leaves());
            },
        }
    }

    proof fn lemma_median_split(self)
        requires
            self.wf(),
        ensures
            median_split(self.leaves()),
            self.bounds() == enclosure(self.leaves()),
        decreases self,
    {
        self.lemma_bounds_enclose();
        self.lemma_leaves_nonempty();
        lemma_enclosure_is(self.bounds(), self.leaves());
        match self {
            Node::Tip(leaf) => {},
            Node::Fork { aabb, left, right } => {
                left.lemma_median_split();
                right.lemma_median_split();
                left.lemma_leaves_nonempty();
                let all = self.leaves();
                let mid = (all.len() / 2) as int;
                assert(mid == left.leaves().len());
                assert(all.take(mid) =~= left.leaves());
                assert(all.skip(mid) =~= right.leaves());
            },
        }
    }

    proof fn lemma_height(self)
        requires
            self.wf(),
        ensures
            self.height() == 0 <==> self.leaves().len() == 1,
            self.height() >= 1 ==> two_pow((self.height() - 1) as nat) < self.leaves().len(),
        decreases self,
    {
        match self {
            Node::Tip(leaf) => {},
            Node::Fork { aabb, left, right } => {
                left.lemma_height();
                right.lemma_height();
                left.lemma_leaves_nonempty();
                right.lemma_leaves_nonempty();
            },
        }
    }

    proof fn lemma_height_below_count(self)
        ensures
            self.height() < self.leaves().len(),
        decreases self,
    {
        match self {
            Node::Tip(leaf) => {},
            Node::Fork { aabb, left, right } => {
                left.lemma_height_below_count();
                right.lemma_height_below_count();
            },
        }
    }

    fn depth(&self) -> (h: usize)
        requires
            self.leaves().len() <= usize::MAX,
        ensures
            h == self.height(),
        decreases self,
    {
        match self {
            Node::Tip(leaf) => 0,
            Node::Fork { aabb, left, right } => {
                proof {
                    self.lemma_height_below_count();
                }
                let l = left.depth();
                let r = right.depth();
                if l >= r {
                    l + 1
                } else {
                    r + 1
                }
            },
        }
    }

    fn bounding_volume(&self) -> (b: Aabb)
        ensures
            b == self.bounds(),
    {
        match self {
            Node::Tip(leaf) => leaf.aabb,
            Node::Fork { aabb, left, right } => *aabb,
        }
    }

    fn collect(&self, query: &Aabb, out: &mut Vec<usize>)
        requires
            self.wf(),
        ensures
            final(out)@ == old(out)@ + hits(self.leaves(), *query),
        decreases self,
    {
        match self {
            Node::Tip(leaf) => {
                proof {
                    assert(self.leaves().drop_last() =~= Seq::<Leaf>::empty());
                    assert(hits(self.leaves().drop_last(), *query) =~= Seq::<usize>::empty());
                }
                if leaf.aabb.intersects(query) {
                    out.push(leaf.id);
                    assert(out@ =~= old(out)@ + hits(self.leaves(), *query));
                } else {
                    assert(out@ =~= old(out)@ + hits(self.leaves(), *query));
                }
            },
            Node::Fork { aabb, left, right } => {
                if aabb.intersects(query) {
                    left.collect(query, out);
                    right.collect(query, out);
                    proof {
                        lemma_hits_concat(left.leaves(), right.leaves(), *query);
                        assert(out@ =~= old(out)@ + hits(self.leaves(), *query));
                    }
                } else {
                    proof {
                        self.lemma_bounds_enclose();
                        assert forall|i: int| 0 <= i < self.leaves().len() implies !(
                        #[trigger] self.leaves()[i]).aabb.spec_intersects(*query) by {
                            if self.leaves()[i].aabb.spec_intersects(*query) {
                                lemma_enclosed_intersects(*aabb, self.leaves()[i].aabb, *query);
                            }
                        }
                        lemma_hits_none(self.leaves(), *query);
                        assert(out@ =~= old(out)@ + hits(self.leaves(), *query));
                    }
                }
            },
        }
    }
}

/// The hits of two sequences laid end to end are the hits of the first
/// followed by the hits of the second.
pub proof fn lemma_hits_concat(a: Seq<Leaf>, b: Seq<Leaf>, query: Aabb)
    ensures
        hits(a + b, query) == hits(a, query) + hits(b, query),
    decreases b.len(),
{
    if b.len() == 0 {
        assert(a + b =~= a);
        assert(hits(a, query) + hits(b, query) =~= hits(a, query));
    } else {
        lemma_hits_concat(a, b.drop_last(), query);
        assert((a + b).drop_last() =~= a + b.drop_last());
        assert((a + b).last() == b.last());
        if b.last().aabb.spec_intersects(query) {
            assert(hits(a + b, query) =~= hits(a, query) + hits(b, query));
        }
    }
}

/// Where no box meets the query, nothing is hit.
pub proof fn lemma_hits_none(leaves: Seq<Leaf>, query: Aabb)
    requires
        forall|i: int| 0 <= i < leaves.len() ==> !(#[trigger] leaves[i]).aabb.spec_intersects(query),
    ensures
        hits(leaves, query) == Seq::<usize>::empty(),
    decreases leaves.len(),
{
    if leaves.len() > 0 {
        assert(!leaves[leaves.len() - 1].aabb.spec_intersects(query));
        assert forall|i: int| 0 <= i < leaves.drop_last().len() implies !(
        #[trigger] leaves.drop_last()[i]).aabb.spec_intersects(query) by {
            assert(leaves.drop_last()[i] == leaves[i]);
        }
        lemma_hits_none(leaves.drop_last(), query);
    }
}

/// Every id that is hit belongs to a leaf whose box meets the query.
pub proof fn lemma_hits_sound(leaves: Seq<Leaf>, query: Aabb, k: int)
    requires
        0 <= k < hits(leaves, query).len(),
    ensures
        exists|i: int|
            0 <= i < leaves.len() && (#[trigger] leaves[i]).id == hits(leaves, query)[k]
                && leaves[i].aabb.spec_intersects(query),
    decreases leaves.len(),
{
    if leaves.len() > 0 {
        let rest = leaves.drop_last();
        let last = leaves.len() - 1;
        if leaves.last().aabb.spec_intersects(query) && k == hits(rest, query).len() {
            assert(leaves[last].id == hits(leaves, query)[k]);
        } else {
            lemma_hits_sound(rest, query, k);
            let i = choose|i: int|
                0 <= i < rest.len() && (#[trigger] rest[i]).id == hits(rest, query)[k]
                    && rest[i].aabb.spec_intersects(query);
            assert(leaves[i] == rest[i]);
        }
    }
}

/// Every leaf whose box meets the query has its id among the hits.
pub proof fn lemma_hits_complete(leaves: Seq<Leaf>, query: Aabb, i: int)
    requires
        0 <= i < leaves.len(),
        leaves[i].aabb.spec_intersects(query),
    ensures
        hits(leaves, query).contains(leaves[i].id),
    decreases leaves.len(),
{
    let rest = leaves.drop_last();
    let last = leaves.len() - 1;
    if i == last {
        let h = hits(leaves, query);
        assert(h[h.len() - 1] == leaves[i].id);
    } else {
        lemma_hits_complete(rest, query, i);
        assert(rest[i] == leaves[i]);
        let k = choose|k: int| 0 <= k < hits(rest, query).len() && hits(rest, query)[k] == rest[i].id;
        assert(hits(leaves, query)[k] == leaves[i].id);
    }
}

/// An id is among the hits if and only if it is the id of a leaf whose box
/// meets the query.
pub proof fn lemma_hits_exact(leaves: Seq<Leaf>, query: Aabb, id: usize)
    ensures
        hits(leaves, query).contains(id) <==> is_hit(leaves, query, id),
{
    if hits(leaves, query).contains(id) {
        let k = choose|k: int| 0 <= k < hits(leaves, query).len() && hits(leaves, query)[k] == id;
        lemma_hits_sound(leaves, query, k);
    }
    if is_hit(leaves, query, id) {
        let i = choose|i: int|
            0 <= i < leaves.len() && (#[trigger] leaves[i]).id == id
                && leaves[i].aabb.spec_intersects(query);
        lemma_hits_complete(leaves, query, i);
    }
}

/// Leaves with distinct ids are hit at most once each.
pub proof fn lemma_hits_no_duplicates(leaves: Seq<Leaf>, query: Aabb)
    requires
        distinct_ids(leaves),
    ensures
        hits(leaves, query).no_duplicates(),
    decreases leaves.len(),
{
    if leaves.len() > 0 {
        let rest = leaves.drop_last();
        let last = leaves.len() - 1;
        assert forall|i: int, j: int|
            0 <= i < rest.len() && 0 <= j < rest.len() && i != j implies (#[trigger] rest[i]).id != (
        #[trigger] rest[j]).id by {
            assert(rest[i] == leaves[i]);
            assert(rest[j] == leaves[j]);
        }
        lemma_hits_no_duplicates(rest, query);
        if leaves.last().aabb.spec_intersects(query) {
            let h = hits(rest, query);
            assert forall|k: int| 0 <= k < h.len() implies h[k] != leaves.last().id by {
                lemma_hits_sound(rest, query, k);
                let i = choose|i: int|
                    0 <= i < rest.len() && (#[trigger] rest[i]).id == h[k]
                        && rest[i].aabb.spec_intersects(query);
                assert(rest[i] == leaves[i]);
                assert(leaves[i].id != leaves[last].id);
            }
        }
    }
}

/// The smallest box around two groups of leaves is the merge of the
/// smallest boxes around each.
pub proof fn lemma_enclosure_concat(ba: Aabb, a: Seq<Leaf>, bb: Aabb, b: Seq<Leaf>)
    requires
        is_enclosure(ba, a),
        is_enclosure(bb, b),
    ensures
        is_enclosure(ba.spec_merged(bb), a + b),
{
    let m = ba.spec_merged(bb);
    let s = a + b;
    assert forall|i: int| 0 <= i < s.len() implies m.encloses(#[trigger] s[i].aabb) by {
        if i < a.len() {
            assert(s[i] == a[i]);
        } else {
            assert(s[i] == b[i - a.len()]);
        }
    }
    let ia = choose|i: int| 0 <= i < a.len() && (#[trigger] a[i]).aabb.mins.x == ba.mins.x;
    let ib = choose|i: int| 0 <= i < b.len() && (#[trigger] b[i]).aabb.mins.x == bb.mins.x;
    assert(s[ia] == a[ia] && s[ib + a.len()] == b[ib]);
    let ia = choose|i: int| 0 <= i < a.len() && (#[trigger] a[i]).aabb.mins.y == ba.mins.y;
    let ib = choose|i: int| 0 <= i < b.len() && (#[trigger] b[i]).aabb.mins.y == bb.mins.y;
    assert(s[ia] == a[ia] && s[ib + a.len()] == b[ib]);
    let ia = choose|i: int| 0 <= i < a.len() && (#[trigger] a[i]).aabb.mins.z == ba.mins.z;
    let ib = choose|i: int| 0 <= i < b.len() && (#[trigger] b[i]).aabb.mins.z == bb.mins.z;
    assert(s[ia] == a[ia] && s[ib + a.len()] == b[ib]);
    let ia = choose|i: int| 0 <= i < a.len() && (#[trigger] a[i]).aabb.maxs.x == ba.maxs.x;
    let ib = choose|i: int| 0 <= i < b.len() && (#[trigger] b[i]).aabb.maxs.x == bb.maxs.x;
    assert(s[ia] == a[ia] && s[ib + a.len()] == b[ib]);
    let ia = choose|i: int| 0 <= i < a.len() && (#[trigger] a[i]).aabb.maxs.y == ba.maxs.y;
    let ib = choose|i: int| 0 <= i < b.len() && (#[trigger] b[i]).aabb.maxs.y == bb.maxs.y;
    assert(s[ia] == a[ia] && s[ib + a.len()] == b[ib]);
    let ia = choose|i: int| 0 <= i < a.len() && (#[trigger] a[i]).aabb.maxs.z == ba.maxs.z;
    let ib = choose|i: int| 0 <= i < b.len() && (#[trigger] b[i]).aabb.maxs.z == bb.maxs.z;
    assert(s[ia] == a[ia] && s[ib + a.len()] == b[ib]);
}

/// Exchanging two items of a sequence leaves its multiset as it was.
proof fn lemma_swap_multiset(s: Seq<Leaf>, i: int, j: int)
    requires
        0 <= i < s.len(),
        0 <= j < s.len(),
    ensures
        s.update(i, s[j]).update(j, s[i]).to_multiset() == s.to_multiset(),
{
    broadcast use vstd::multiset::group_multiset_axioms;

    let s1 = s.update(i, s[j]);
    vstd::seq_lib::to_multiset_update(s, i, s[j]);
    vstd::seq_lib::to_multiset_update(s1, j, s[i]);
    vstd::seq_lib::to_multiset_contains(s, s[i]);
    vstd::seq_lib::to_multiset_contains(s, s[j]);
    assert(s.contains(s[i]) && s.contains(s[j]));
    assert(s1.update(j, s[i]).to_multiset() =~= s.to_multiset());
}

/// What occurs in one of two sequences with the same multiset occurs in
/// the other.
pub proof fn lemma_same_multiset_contains(s1: Seq<Leaf>, s2: Seq<Leaf>, i: int)
    requires
        s1.to_multiset() == s2.to_multiset(),
        0 <= i < s1.len(),
    ensures
        s2.contains(s1[i]),
{
    vstd::seq_lib::to_multiset_contains(s1, s1[i]);
    vstd::seq_lib::to_multiset_contains(s2, s1[i]);
    assert(s1.contains(s1[i]));
}

/// Leaves with distinct ids have distinct ids in every order.
pub proof fn lemma_distinct_ids_reordered(s1: Seq<Leaf>, s2: Seq<Leaf>)
    requires
        distinct_ids(s1),
        s1.to_multiset() == s2.to_multiset(),
    ensures
        distinct_ids(s2),
{
    assert(s1.no_duplicates());
    s1.lemma_multiset_has_no_duplicates();
    s2.lemma_multiset_has_no_duplicates_conv();
    assert forall|i: int, j: int|
        0 <= i < s2.len() && 0 <= j < s2.len() && i != j implies (#[trigger] s2[i]).id != (
    #[trigger] s2[j]).id by {
        lemma_same_multiset_contains(s2, s1, i);
        lemma_same_multiset_contains(s2, s1, j);
        let a = choose|a: int| 0 <= a < s1.len() && s1[a] == s2[i];
        let b = choose|b: int| 0 <= b < s1.len() && s1[b] == s2[j];
        assert(s2[i] != s2[j]);
        assert(a != b);
        assert(s1[a].id != s1[b].id);
    }
}

/// A box that is the smallest around a group of leaves is their enclosure.
pub proof fn lemma_enclosure_is(bounds: Aabb, leaves: Seq<Leaf>)
    requires
        is_enclosure(bounds, leaves),
    ensures
        enclosure(leaves) == bounds,
{
    lemma_enclosure_unique(bounds, leaves, enclosure(leaves), leaves);
}

/// Around every group of at least one leaf there is a smallest box.
pub proof fn lemma_enclosure_exists(leaves: Seq<Leaf>)
    requires
        leaves.len() >= 1,
    ensures
        is_enclosure(enclosure(leaves), leaves),
    decreases leaves.len(),
{
    let one = seq![leaves.last()];
    assert(one[0] == leaves.last());
    assert(is_enclosure(leaves.last().aabb, one));
    if leaves.len() == 1 {
        assert(leaves =~= one);
    } else {
        let rest = leaves.drop_last();
        lemma_enclosure_exists(rest);
        lemma_enclosure_concat(enclosure(rest), rest, leaves.last().aabb, one);
        assert(leaves =~= rest + one);
    }
}

/// The enclosure of a group of leaves does not depend on their order.
pub proof fn lemma_enclosure_of_reordered(s1: Seq<Leaf>, s2: Seq<Leaf>)
    requires
        s1.to_multiset() == s2.to_multiset(),
        s1.len() >= 1,
    ensures
        enclosure(s1) == enclosure(s2),
{
    lemma_enclosure_exists(s1);
    lemma_enclosure_reordered(enclosure(s1), s1, s2);
    lemma_enclosure_is(enclosure(s1), s2);
}

/// The smallest box around a group of leaves is the smallest box around
/// the same leaves in another order.
pub proof fn lemma_enclosure_reordered(bounds: Aabb, s1: Seq<Leaf>, s2: Seq<Leaf>)
    requires
        is_enclosure(bounds, s1),
        s1.to_multiset() == s2.to_multiset(),
    ensures
        is_enclosure(bounds, s2),
{
    assert forall|i: int| 0 <= i < s2.len() implies bounds.encloses(#[trigger] s2[i].aabb) by {
        lemma_same_multiset_contains(s2, s1, i);
        let j = choose|j: int| 0 <= j < s1.len() && s1[j] == s2[i];
        assert(bounds.encloses(s1[j].aabb));
    }
    let i = choose|i: int| 0 <= i < s1.len() && (#[trigger] s1[i]).aabb.mins.x == bounds.mins.x;
    lemma_same_multiset_contains(s1, s2, i);
    let j = choose|j: int| 0 <= j < s2.len() && s2[j] == s1[i];
    assert(s2[j].aabb.mins.x == bounds.mins.x);
    let i = choose|i: int| 0 <= i < s1.len() && (#[trigger] s1[i]).aabb.mins.y == bounds.mins.y;
    lemma_same_multiset_contains(s1, s2, i);
    let j = choose|j: int| 0 <= j < s2.len() && s2[j] == s1[i];
    assert(s2[j].aabb.mins.y == bounds.mins.y);
    let i = choose|i: int| 0 <= i < s1.len() && (#[trigger] s1[i]).aabb.mins.z == bounds.mins.z;
    lemma_same_multiset_contains(s1, s2, i);
    let j = choose|j: int| 0 <= j < s2.len() && s2[j] == s1[i];
    assert(s2[j].aabb.mins.z == bounds.mins.z);
    let i = choose|i: int| 0 <= i < s1.len() && (#[trigger] s1[i]).aabb.maxs.x == bounds.maxs.x;
    lemma_same_multiset_contains(s1, s2, i);
    let j = choose|j: int| 0 <= j < s2.len() && s2[j] == s1[i];
    assert(s2[j].aabb.maxs.x == bounds.maxs.x);
    let i = choose|i: int| 0 <= i < s1.len() && (#[trigger] s1[i]).aabb.maxs.y == bounds.maxs.y;
    lemma_same_multiset_contains(s1, s2, i);
    let j = choose|j: int| 0 <= j < s2.len() && s2[j] == s1[i];
    assert(s2[j].aabb.maxs.y == bounds.maxs.y);
    let i = choose|i: int| 0 <= i < s1.len() && (#[trigger] s1[i]).aabb.maxs.z == bounds.maxs.z;
    lemma_same_multiset_contains(s1, s2, i);
    let j = choose|j: int| 0 <= j < s2.len() && s2[j] == s1[i];
    assert(s2[j].aabb.maxs.z == bounds.maxs.z);
}

/// The smallest box around a group of leaves does not depend on their order.
pub proof fn lemma_enclosure_unique(b1: Aabb, s1: Seq<Leaf>, b2: Aabb, s2: Seq<Leaf>)
    requires
        is_enclosure(b1, s1),
        is_enclosure(b2, s2),
        s1.to_multiset() == s2.to_multiset(),
    ensures
        b1 == b2,
{
    assert forall|i: int| 0 <= i < s1.len() implies b2.encloses(#[trigger] s1[i].aabb) by {
        lemma_same_multiset_contains(s1, s2, i);
        let j = choose|j: int| 0 <= j < s2.len() && s2[j] == s1[i];
        assert(b2.encloses(s2[j].aabb));
    }
    assert forall|i: int| 0 <= i < s2.len() implies b1.encloses(#[trigger] s2[i].aabb) by {
        lemma_same_multiset_contains(s2, s1, i);
        let j = choose|j: int| 0 <= j < s1.len() && s1[j] == s2[i];
        assert(b1.encloses(s1[j].aabb));
    }
}

fn centre(leaf: &Leaf, axis: Axis) -> (k: i128)
    ensures
        k == leaf.aabb.centre2(axis),
{
    leaf.aabb.mins.get(axis) as i128 + leaf.aabb.maxs.get(axis) as i128
}

/// Orders the leaves by the centres of their boxes along `axis`.
fn sort_along(leaves: &mut Vec<Leaf>, axis: Axis)
    ensures
        final(leaves)@.len() == old(leaves)@.len(),
        final(leaves)@.to_multiset() == old(leaves)@.to_multiset(),
        sorted_along(final(leaves)@, axis),
{
    let n = leaves.len();
    let mut i: usize = 1;
    while i < n
        invariant
            1 <= i,
            leaves@.len() == n,
            leaves@.to_multiset() == old(leaves)@.to_multiset(),
            forall|a: int, b: int|
                0 <= a < b < i && b < n ==> #[trigger] centre_key(leaves@, a, axis)
                    <= #[trigger] centre_key(leaves@, b, axis),
        decreases n - i,
    {
        let mut j: usize = i;
        while j > 0 && centre(&leaves[j - 1], axis) > centre(&leaves[j], axis)
            invariant
                0 <= j <= i < n,
                leaves@.len() == n,
                leaves@.to_multiset() == old(leaves)@.to_multiset(),
                forall|a: int, b: int|
                    0 <= a < b <= i && a != j && b != j ==> #[trigger] centre_key(leaves@, a, axis)
                        <= #[trigger] centre_key(leaves@, b, axis),
                forall|b: int|
                    j < b <= i ==> centre_key(leaves@, j as int, axis) <= #[trigger] centre_key(
                        leaves@,
                        b,
                        axis,
                    ),
            decreases j,
        {
            let ghost before = leaves@;
            let lower = leaves[j - 1];
            let upper = leaves[j];
            leaves.set(j - 1, upper);
            leaves.set(j, lower);
            proof {
                lemma_swap_multiset(before, j - 1, j as int);
                assert(leaves@ =~= before.update(j - 1, before[j as int]).update(
                    j as int,
                    before[j - 1],
                ));
                assert forall|a: int, b: int|
                    0 <= a < b <= i && a != j - 1 && b != j - 1 implies #[trigger] centre_key(
                    leaves@,
                    a,
                    axis,
                ) <= #[trigger] centre_key(leaves@, b, axis) by {
                    if b == j {
                        assert(centre_key(before, a, axis) <= centre_key(before, j - 1, axis));
                    } else if a == j {
                        assert(centre_key(before, j - 1, axis) <= centre_key(before, b, axis));
                    } else {
                        assert(centre_key(before, a, axis) <= centre_key(before, b, axis));
                    }
                }
                assert forall|b: int| j - 1 < b <= i implies centre_key(leaves@, j - 1, axis)
                    <= #[trigger] centre_key(leaves@, b, axis) by {
                    if b > j {
                        assert(centre_key(before, j as int, axis) <= centre_key(before, b, axis));
                    }
                }
            }
            j -= 1;
        }
        proof {
            assert forall|a: int, b: int| 0 <= a < b < i + 1 && b < n implies #[trigger] centre_key(
                leaves@,
                a,
                axis,
            ) <= #[trigger] centre_key(leaves@, b, axis) by {
                if b == j && a < j - 1 {
                    assert(centre_key(leaves@, a, axis) <= centre_key(leaves@, j - 1, axis));
                }
            }
        }
        i += 1;
    }
}

/// The smallest box around the boxes of `leaves`.
fn enclosure_of(leaves: &Vec<Leaf>) -> (bounds: Aabb)
    requires
        leaves@.len() >= 1,
    ensures
        is_enclosure(bounds, leaves@),
{
    let mut bounds = leaves[0].aabb;
    let mut i: usize = 1;
    proof {
        assert(leaves@.take(1)[0] == leaves@[0]);
    }
    while i < leaves.len()
        invariant
            1 <= i <= leaves@.len(),
            is_enclosure(bounds, leaves@.take(i as int)),
        decreases leaves@.len() - i,
    {
        proof {
            let one = seq![leaves@[i as int]];
            assert(one[0] == leaves@[i as int]);
            assert(is_enclosure(leaves@[i as int].aabb, one));
            lemma_enclosure_concat(bounds, leaves@.take(i as int), leaves@[i as int].aabb, one);
            assert(leaves@.take(i + 1) =~= leaves@.take(i as int) + one);
        }
        bounds = bounds.merged(&leaves[i].aabb);
        i += 1;
    }
    proof {
        assert(leaves@.take(i as int) =~= leaves@);
    }
    bounds
}

/// Builds the subtree over `leaves`: one tip for one leaf, else a fork over
/// the two halves of the leaves, ordered along the axis on which they spread
/// the most.
fn build_node(leaves: Vec<Leaf>) -> (node: Node)
    requires
        leaves@.len() >= 1,
    ensures
        node.wf(),
        node.leaves().len() == leaves@.len(),
        node.leaves().to_multiset() == leaves@.to_multiset(),
    decreases leaves@.len(),
{
    let mut leaves = leaves;
    let ghost given = leaves@;
    if leaves.len() == 1 {
        let leaf = leaves[0];
        proof {
            assert(seq![leaf] =~= given);
        }
        return Node::Tip(leaf);
    }
    let bounds = enclosure_of(&leaves);
    let axis = bounds.widest_axis();
    sort_along(&mut leaves, axis);
    let ghost sorted = leaves@;
    let mid = leaves.len() / 2;
    let upper = leaves.split_off(mid);
    let ghost lower_half = leaves@;
    let ghost upper_half = upper@;
    let left = build_node(leaves);
    let right = build_node(upper);
    let aabb = left.bounding_volume().merged(&right.bounding_volume());
    proof {
        let l = left.leaves();
        let r = right.leaves();
        assert(sorted =~= lower_half + upper_half);
        vstd::seq_lib::lemma_multiset_commutative(lower_half, upper_half);
        vstd::seq_lib::lemma_multiset_commutative(l, r);
        assert((l + r).to_multiset() =~= given.to_multiset());
        left.lemma_bounds_enclose();
        right.lemma_bounds_enclose();
        lemma_enclosure_concat(left.bounds(), l, right.bounds(), r);
        lemma_enclosure_unique(aabb, l + r, bounds, given);
        assert forall|a: int, b: int| 0 <= a < l.len() && 0 <= b < r.len() implies #[trigger] centre_key(
            l,
            a,
            axis,
        ) <= #[trigger] centre_key(r, b, axis) by {
            lemma_same_multiset_contains(l, lower_half, a);
            lemma_same_multiset_contains(r, upper_half, b);
            let x = choose|x: int| 0 <= x < lower_half.len() && lower_half[x] == l[a];
            let y = choose|y: int| 0 <= y < upper_half.len() && upper_half[y] == r[b];
            assert(sorted[x] == l[a]);
            assert(sorted[y + mid] == r[b]);
            assert(centre_key(sorted, x, axis) <= centre_key(sorted, y + mid, axis));
        }
    }
    Node::Fork { aabb, left: Box::new(left), right: Box::new(right) }
}

impl View for BoundingVolumeTree {
    type V = Seq<Leaf>;

    closed spec fn view(&self) -> Seq<Leaf> {
        match self.root {
            Some(node) => node.leaves(),
            None => Seq::empty(),
        }
    }
}

impl BoundingVolumeTree {
    #[verifier::type_invariant]
    spec fn inv(self) -> bool {
        self.wf()
    }

    /// The tree is as `build` makes it: every fork carries the smallest box
    /// around its subtree and splits its leaves in two halves at the median.
    pub closed spec fn wf(self) -> bool {
        &&& self.count == self@.len()
        &&& match self.root {
            Some(node) => node.wf(),
            None => true,
        }
    }

    /// The smallest box around all leaves; none for the empty tree.
    pub open spec fn spec_bounds(self) -> Option<Aabb> {
        if self@.len() == 0 {
            None
        } else {
            Some(enclosure(self@))
        }
    }

    /// The number of forks on the longest way from the root to a leaf.
    pub closed spec fn spec_height(self) -> nat {
        match self.root {
            Some(node) => node.height(),
            None => 0,
        }
    }

    /// Builds the tree over `leaves` by recursive median splits: the leaves
    /// are divided along the axis on which the box around them is widest,
    /// half to each side, down to single leaves. No leaves give the empty
    /// tree, one leaf a tree that is that leaf.
    pub fn build(leaves: Vec<Leaf>) -> (tree: Self)
        ensures
            tree.wf(),
            tree@.len() == leaves@.len(),
            tree@.to_multiset() == leaves@.to_multiset(),
            median_split(tree@),
            leaves@.len() == 1 ==> tree@ == leaves@,
            leaves@.len() <= 1 ==> tree.spec_height() == 0,
            tree.spec_height() >= 1 ==> two_pow((tree.spec_height() - 1) as nat) < leaves@.len(),
    {
        let count = leaves.len();
        if count == 0 {
            let tree = BoundingVolumeTree { root: None, count: 0 };
            assert(tree@ =~= leaves@);
            return tree;
        }
        let ghost given = leaves@;
        let node = build_node(leaves);
        proof {
            node.lemma_height();
            node.lemma_median_split();
            if given.len() == 1 {
                lemma_same_multiset_contains(node.leaves(), given, 0);
                assert(node.leaves() =~= given);
            }
        }
        BoundingVolumeTree { root: Some(Box::new(node)), count }
    }

    /// The number of leaves.
    pub fn len(&self) -> (n: usize)
        ensures
            n == self@.len(),
    {
        proof {
            use_type_invariant(self);
        }
        self.count
    }

    pub fn is_empty(&self) -> (b: bool)
        ensures
            b == (self@.len() == 0),
    {
        proof {
            use_type_invariant(self);
        }
        self.count == 0
    }

    /// The height of the tree, which grows with the logarithm of the number
    /// of leaves.
    pub fn height(&self) -> (h: usize)
        ensures
            h == self.spec_height(),
            self@.len() <= 1 ==> h == 0,
            h >= 1 ==> two_pow((h - 1) as nat) < self@.len(),
    {
        proof {
            use_type_invariant(self);
        }
        match &self.root {
            Some(node) => {
                proof {
                    node.lemma_height();
                }
                node.depth()
            },
            None => 0,
        }
    }

    /// The smallest box around all leaves; none for the empty tree.
    pub fn root_bounding_volume(&self) -> (bounds: Option<Aabb>)
        ensures
            bounds == self.spec_bounds(),
            bounds is None <==> self@.len() == 0,
            bounds matches Some(b) ==> is_enclosure(b, self@),
    {
        proof {
            use_type_invariant(self);
        }
        match &self.root {
            Some(node) => {
                proof {
                    node.lemma_bounds_enclose();
                    node.lemma_leaves_nonempty();
                    node.lemma_median_split();
                }
                Some(node.bounding_volume())
            },
            None => None,
        }
    }

    /// The ids of the leaves whose box meets `query`: each such leaf once,
    /// and no other.
    pub fn overlapping(&self, query: &Aabb) -> (ids: Vec<usize>)
        ensures
            ids@ == hits(self@, *query),
            forall|id: usize| ids@.contains(id) <==> #[trigger] is_hit(self@, *query, id),
            distinct_ids(self@) ==> ids@.no_duplicates(),
    {
        proof {
            use_type_invariant(self);
        }
        let mut ids: Vec<usize> = Vec::new();
        match &self.root {
            Some(node) => {
                node.collect(query, &mut ids);
                assert(ids@ =~= hits(self@, *query));
            },
            None => {},
        }
        proof {
            assert forall|id: usize| ids@.contains(id) <==> #[trigger] is_hit(
                self@,
                *query,
                id,
            ) by {
                lemma_hits_exact(self@, *query, id);
            }
            if distinct_ids(self@) {
                lemma_hits_no_duplicates(self@, *query);
            }
        }
        ids
    }
}

/// The leaves of a tree that `build` made stand in the order of its median
/// splits.
pub proof fn lemma_tree_is_median_split(tree: BoundingVolumeTree)
    requires
        tree.wf(),
    ensures
        median_split(tree@),
{
    match tree.root {
        Some(node) => {
            node.lemma_median_split();
        },
        None => {},
    }
}

/// A tree that `build` made is balanced: its height is the logarithm of the
/// number of its leaves, rounded up.
pub proof fn lemma_tree_is_balanced(tree: BoundingVolumeTree)
    requires
        tree.wf(),
    ensures
        tree@.len() <= 1 ==> tree.spec_height() == 0,
        tree.spec_height() >= 1 ==> two_pow((tree.spec_height() - 1) as nat) < tree@.len(),
{
    match tree.root {
        Some(node) => {
            node.lemma_height();
        },
        None => {},
    }
}

/// Of leaves given in any order, a query finds every one whose box meets
/// it: what is hit does not depend on where a leaf stands in the tree.
pub proof fn lemma_hits_cover(given: Seq<Leaf>, stored: Seq<Leaf>, query: Aabb, i: int)
    requires
        given.to_multiset() == stored.to_multiset(),
        0 <= i < given.len(),
        given[i].aabb.spec_intersects(query),
    ensures
        hits(stored, query).contains(given[i].id),
{
    lemma_same_multiset_contains(given, stored, i);
    let j = choose|j: int| 0 <= j < stored.len() && stored[j] == given[i];
    lemma_hits_complete(stored, query, j);
}

/// Of leaves given in any order, a query finds none whose box misses it:
/// every id that is hit is the id of a given leaf whose box meets the query.
pub proof fn lemma_hits_within(given: Seq<Leaf>, stored: Seq<Leaf>, query: Aabb, k: int)
    requires
        given.to_multiset() == stored.to_multiset(),
        0 <= k < hits(stored, query).len(),
    ensures
        exists|i: int|
            0 <= i < given.len() && (#[trigger] given[i]).id == hits(stored, query)[k]
                && given[i].aabb.spec_intersects(query),
{
    lemma_hits_sound(stored, query, k);
    let j = choose|j: int|
        0 <= j < stored.len() && (#[trigger] stored[j]).id == hits(stored, query)[k]
            && stored[j].aabb.spec_intersects(query);
    lemma_same_multiset_contains(stored, given, j);
    let i = choose|i: int| 0 <= i < given.len() && given[i] == stored[j];
    assert(given[i].id == hits(stored, query)[k]);
}

} // verus!

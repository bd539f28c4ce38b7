//! A balanced 2-D k-d tree held in an arena.
//!
//! The tree is built by repeated median selection over a range of a point
//! array, the split axis alternating with depth. Nodes are stored children
//! first, so every child index is smaller than its parent's and the root of a
//! freshly built tree is the last node of the arena.

use crate::index_list::{items, list_len, list_new, list_pop, list_push, CAPACITY};
use crate::point::{squared_distance, squared_distance_spec};
pub use crate::point::Point;
use crate::sums::{
    lemma_total_bounds, lemma_total_concat, lemma_total_permutation, lemma_total_positive, total,
};
use arrayvec::ArrayVec;
use std::cmp::Ordering;
use vstd::prelude::*;

verus! {

/// An axis-aligned rectangle, both corners included.
#[derive(Clone, Copy, Debug, PartialEq, Eq, Structural)]
pub struct Bounds {
    pub lower: Point,
    pub upper: Point,
}

impl Bounds {
    /// The lower corner is not above the upper corner on either axis.
    pub open spec fn wf(self) -> bool {
        self.lower.x <= self.upper.x && self.lower.y <= self.upper.y
    }

    /// `p` lies in the rectangle or on its border.
    pub open spec fn contains(self, p: Point) -> bool {
        self.lower.x <= p.x <= self.upper.x && self.lower.y <= p.y <= self.upper.y
    }

    /// The part of the rectangle at or below `p` on the split axis.
    pub open spec fn lower_part(self, p: Point, horizontal: bool) -> Bounds {
        if horizontal {
            Bounds { lower: self.lower, upper: Point { x: p.x, y: self.upper.y } }
        } else {
            Bounds { lower: self.lower, upper: Point { x: self.upper.x, y: p.y } }
        }
    }

    /// The part of the rectangle at or above `p` on the split axis.
    pub open spec fn upper_part(self, p: Point, horizontal: bool) -> Bounds {
        if horizontal {
            Bounds { lower: Point { x: p.x, y: self.lower.y }, upper: self.upper }
        } else {
            Bounds { lower: Point { x: self.lower.x, y: p.y }, upper: self.upper }
        }
    }
}

/// One node of the tree. `horizontal` means the node splits its rectangle at
/// its point's `x`; otherwise at its `y`.
#[derive(Clone, Copy, Debug, PartialEq, Eq, Structural)]
pub struct Tree {
    pub point: Point,
    pub bounds: Bounds,
    pub horizontal: bool,
    pub left: Option<usize>,
    pub right: Option<usize>,
}

/// The coordinate of `p` that a split along the given axis compares.
pub open spec fn coordinate(p: Point, horizontal: bool) -> int {
    if horizontal {
        p.x as int
    } else {
        p.y as int
    }
}

/// The points of `s` in `lo..hi`, in order.
pub open spec fn range_of(s: Seq<Point>, lo: usize, hi: usize) -> Seq<Point> {
    s.subrange(lo as int, hi as int)
}

/// `after` differs from `before` at most inside `lo..hi`.
pub open spec fn unchanged_outside(
    before: Seq<Point>,
    after: Seq<Point>,
    lo: usize,
    hi: usize,
) -> bool {
    &&& after.len() == before.len()
    &&& forall|i: int| 0 <= i < before.len() && !(lo <= i < hi) ==> after[i] == before[i]
}

/// Within `lo..hi`, the point at offset `nth` has nothing larger before it
/// and nothing smaller after it on the given axis.
pub open spec fn selected_at(
    s: Seq<Point>,
    lo: usize,
    hi: usize,
    nth: usize,
    horizontal: bool,
) -> bool {
    &&& forall|i: int|
        lo <= i < lo + nth ==> coordinate(#[trigger] s[i], horizontal) <= coordinate(
            s[lo + nth],
            horizontal,
        )
    &&& forall|i: int|
        lo + nth < i < hi ==> coordinate(#[trigger] s[i], horizontal) >= coordinate(
            s[lo + nth],
            horizontal,
        )
}

/// Orders two points by the coordinate that the axis compares.
fn compare_on_axis(a: &Point, b: &Point, horizontal: bool) -> (o: Ordering)
    ensures
        (o is Less) == (coordinate(*a, horizontal) < coordinate(*b, horizontal)),
        (o is Greater) == (coordinate(*a, horizontal) > coordinate(*b, horizontal)),
{
    let (u, v): (i32, i32) = if horizontal {
        (a.x, b.x)
    } else {
        (a.y, b.y)
    };
    if u < v {
        Ordering::Less
    } else if u > v {
        Ordering::Greater
    } else {
        Ordering::Equal
    }
}

/// Calls `pdqselect::select_by` on `points[lo..hi]` with `compare_on_axis`.
///
/// Claimed of it: the call only reorders the points of that range, and
/// afterwards the point at offset `nth` of the range has no point with a
/// larger coordinate before it in the range and none with a smaller one
/// after it.
#[verifier::external_body]
fn select_in_range(points: &mut Vec<Point>, lo: usize, hi: usize, nth: usize, horizontal: bool)
    requires
        lo <= hi <= old(points).len(),
        lo + nth < hi,
    ensures
        unchanged_outside(old(points)@, final(points)@, lo, hi),
        range_of(final(points)@, lo, hi).to_multiset() == range_of(
            old(points)@,
            lo,
            hi,
        ).to_multiset(),
        selected_at(final(points)@, lo, hi, nth, horizontal),
{
    pdqselect::select_by(&mut points[lo..hi], nth, |a, b| compare_on_axis(a, b, horizontal));
}

/// The arena index of a child that may stand below `parent`, or `-1`.
pub open spec fn child_index(child: Option<usize>, parent: int) -> int {
    match child {
        Some(c) => if c < parent {
            c as int
        } else {
            -1
        },
        None => -1,
    }
}

/// The points of the subtree rooted at node `i`, left to right.
pub open spec fn subtree_points(trees: Seq<Tree>, i: int) -> Seq<Point>
    decreases i + 1,
{
    if 0 <= i < trees.len() {
        subtree_points(trees, child_index(trees[i].left, i)) + seq![trees[i].point]
            + subtree_points(trees, child_index(trees[i].right, i))
    } else {
        Seq::empty()
    }
}

/// The number of nodes of the subtree rooted at node `i`.
pub open spec fn subtree_size(trees: Seq<Tree>, i: int) -> nat
    decreases i + 1,
{
    if 0 <= i < trees.len() {
        subtree_size(trees, child_index(trees[i].left, i)) + 1 + subtree_size(
            trees,
            child_index(trees[i].right, i),
        )
    } else {
        0
    }
}

/// The number of nodes on the longest path from node `i` down to a leaf.
pub open spec fn subtree_height(trees: Seq<Tree>, i: int) -> nat
    decreases i + 1,
{
    if 0 <= i < trees.len() {
        let l = subtree_height(trees, child_index(trees[i].left, i));
        let r = subtree_height(trees, child_index(trees[i].right, i));
        if l >= r {
            l + 1
        } else {
            r + 1
        }
    } else {
        0
    }
}

/// `child` is absent, or names an earlier node that is itself the root of a
/// k-d tree, splits on the other axis, and covers exactly `part`.
pub open spec fn is_kd_child(trees: Seq<Tree>, i: int, child: Option<usize>, part: Bounds) -> bool
    decreases i, 0nat,
{
    match child {
        Some(c) => {
            &&& 0 <= i < trees.len()
            &&& c < i
            &&& is_kd_tree(trees, c as int)
            &&& trees[c as int].horizontal != trees[i].horizontal
            &&& trees[c as int].bounds == part
        },
        None => true,
    }
}

/// Node `i` is the root of a k-d tree: its point lies in its rectangle, and
/// each child covers the part of that rectangle on its side of the point.
pub open spec fn is_kd_tree(trees: Seq<Tree>, i: int) -> bool
    decreases i, 1nat,
{
    &&& 0 <= i < trees.len()
    &&& trees[i].bounds.contains(trees[i].point)
    &&& is_kd_child(
        trees,
        i,
        trees[i].left,
        trees[i].bounds.lower_part(trees[i].point, trees[i].horizontal),
    )
    &&& is_kd_child(
        trees,
        i,
        trees[i].right,
        trees[i].bounds.upper_part(trees[i].point, trees[i].horizontal),
    )
}

/// The number of binary digits of `n`.
pub open spec fn bit_length(n: nat) -> nat
    decreases n,
{
    if n == 0 {
        0
    } else {
        1 + bit_length(n / 2)
    }
}

/// What a subtree is does not depend on the nodes stored after its root.
pub proof fn lemma_subtree_prefix(a: Seq<Tree>, b: Seq<Tree>, i: int)
    requires
        i < a.len() <= b.len(),
        forall|j: int| 0 <= j <= i ==> a[j] == b[j],
    ensures
        subtree_points(a, i) == subtree_points(b, i),
        subtree_size(a, i) == subtree_size(b, i),
        subtree_height(a, i) == subtree_height(b, i),
        is_kd_tree(a, i) == is_kd_tree(b, i),
    decreases i + 1,
{
    if 0 <= i {
        let l = child_index(a[i].left, i);
        let r = child_index(a[i].right, i);
        lemma_subtree_prefix(a, b, l);
        lemma_subtree_prefix(a, b, r);
        assert(is_kd_child(a, i, a[i].left, a[i].bounds.lower_part(a[i].point, a[i].horizontal))
            == is_kd_child(b, i, b[i].left, b[i].bounds.lower_part(b[i].point, b[i].horizontal)));
        assert(is_kd_child(a, i, a[i].right, a[i].bounds.upper_part(a[i].point, a[i].horizontal))
            == is_kd_child(
            b,
            i,
            b[i].right,
            b[i].bounds.upper_part(b[i].point, b[i].horizontal),
        ));
    }
}

/// A larger number has at least as many digits.
pub proof fn lemma_bit_length_monotonic(a: nat, b: nat)
    requires
        a <= b,
    ensures
        bit_length(a) <= bit_length(b),
    decreases b,
{
    if a > 0 {
        lemma_bit_length_monotonic(a / 2, b / 2);
    }
}

/// Every point of a reordered range was in the range before.
proof fn lemma_reordered_range_member(
    before: Seq<Point>,
    after: Seq<Point>,
    lo: usize,
    hi: usize,
    i: int,
) -> (j: int)
    requires
        lo <= hi <= before.len(),
        before.len() == after.len(),
        range_of(after, lo, hi).to_multiset() == range_of(before, lo, hi).to_multiset(),
        lo <= i < hi,
    ensures
        lo <= j < hi,
        before[j] == after[i],
{
    broadcast use vstd::seq_lib::group_to_multiset_ensures;

    let ra = range_of(after, lo, hi);
    let rb = range_of(before, lo, hi);
    assert(ra[i - lo] == after[i]);
    assert(ra.contains(after[i]));
    assert(rb.to_multiset().count(after[i]) > 0);
    assert(rb.contains(after[i]));
    let k = choose|k: int| 0 <= k < rb.len() && rb[k] == after[i];
    lo + k
}

/// A range holds the same points as before when its middle point stayed and
/// each side holds the same points as before.
proof fn lemma_range_rejoined(before: Seq<Point>, after: Seq<Point>, lo: usize, mid: usize, hi: usize)
    requires
        lo <= mid < hi <= before.len(),
        before.len() == after.len(),
        before[mid as int] == after[mid as int],
        range_of(after, lo, mid).to_multiset() == range_of(before, lo, mid).to_multiset(),
        range_of(after, (mid + 1) as usize, hi).to_multiset() == range_of(
            before,
            (mid + 1) as usize,
            hi,
        ).to_multiset(),
    ensures
        range_of(after, lo, hi).to_multiset() == range_of(before, lo, hi).to_multiset(),
{
    let p = before[mid as int];
    let a0 = range_of(before, lo, mid);
    let b0 = range_of(before, (mid + 1) as usize, hi);
    let a1 = range_of(after, lo, mid);
    let b1 = range_of(after, (mid + 1) as usize, hi);
    assert(range_of(before, lo, hi) =~= a0 + seq![p] + b0);
    assert(range_of(after, lo, hi) =~= a1 + seq![p] + b1);
    vstd::seq_lib::lemma_multiset_commutative(a0 + seq![p], b0);
    vstd::seq_lib::lemma_multiset_commutative(a0, seq![p]);
    vstd::seq_lib::lemma_multiset_commutative(a1 + seq![p], b1);
    vstd::seq_lib::lemma_multiset_commutative(a1, seq![p]);
}

/// The points stand in the order of a left-to-right walk of a k-d tree:
/// no point before the middle one lies above it on the split axis, none
/// after it lies below it, and each side is ordered so along the other
/// axis.
#[verifier::opaque]
pub open spec fn is_kd_order(points: Seq<Point>, horizontal: bool) -> bool
    decreases points.len(),
{
    points.len() == 0 || {
        let n = points.len() as int;
        let m = n / 2;
        &&& forall|i: int|
            0 <= i < m ==> coordinate(#[trigger] points[i], horizontal) <= coordinate(
                points[m],
                horizontal,
            )
        &&& forall|i: int|
            m < i < n ==> coordinate(#[trigger] points[i], horizontal) >= coordinate(
                points[m],
                horizontal,
            )
        &&& is_kd_order(points.subrange(0, m), !horizontal)
        &&& is_kd_order(points.subrange(m + 1, n), !horizontal)
    }
}

/// The nodes of the k-d tree whose left-to-right walk gives `points`, as
/// they stand in an arena from index `base` on: first the nodes of the left
/// subtree, then those of the right subtree, then the root, which holds the
/// middle point.
#[verifier::opaque]
pub open spec fn arena_of(
    points: Seq<Point>,
    horizontal: bool,
    bounds: Bounds,
    base: nat,
) -> Seq<Tree>
    decreases points.len(),
{
    if points.len() == 0 {
        Seq::empty()
    } else {
        let n = points.len();
        let m = n / 2;
        let node = Tree {
            point: points[m as int],
            bounds,
            horizontal,
            left: if m > 0 {
                Some((base + m - 1) as usize)
            } else {
                None
            },
            right: if n - 1 - m > 0 {
                Some((base + n - 2) as usize)
            } else {
                None
            },
        };
        arena_of(
            points.subrange(0, m as int),
            !horizontal,
            bounds.lower_part(points[m as int], horizontal),
            base,
        ) + arena_of(
            points.subrange(m as int + 1, n as int),
            !horizontal,
            bounds.upper_part(points[m as int], horizontal),
            base + m,
        ) + seq![node]
    }
}

/// Every point of `points` in `lo..hi` lies in the rectangle.
#[verifier::opaque]
spec fn all_inside(points: Seq<Point>, lo: usize, hi: usize, bounds: Bounds) -> bool {
    forall|i: int| lo <= i < hi ==> bounds.contains(#[trigger] points[i])
}

/// What the recursive construction knows of a finished child: it is the last
/// node of `trees`, a tree over `part` whose points are `points`, and a k-d
/// tree if `kd` says that the points lay in `part`.
spec fn child_built(
    trees: Seq<Tree>,
    child: Option<usize>,
    part: Bounds,
    horizontal: bool,
    points: Seq<Point>,
    kd: bool,
) -> bool {
    &&& child is Some <==> points.len() > 0
    &&& child matches Some(c) ==> {
        &&& c == trees.len() - 1
        &&& kd ==> is_kd_tree(trees, c as int)
        &&& trees[c as int].bounds == part
        &&& trees[c as int].horizontal == horizontal
        &&& subtree_points(trees, c as int) == points
        &&& subtree_size(trees, c as int) == points.len()
        &&& subtree_height(trees, c as int) <= bit_length(points.len())
    }
}

/// Pushing a node over two finished children gives a finished tree.
proof fn lemma_node_joined(
    left_trees: Seq<Tree>,
    right_trees: Seq<Tree>,
    node: Tree,
    left_points: Seq<Point>,
    right_points: Seq<Point>,
    root: usize,
    kd: bool,
)
    requires
        root == right_trees.len(),
        left_trees.len() <= right_trees.len(),
        right_trees.subrange(0, left_trees.len() as int) == left_trees,
        kd ==> node.bounds.contains(node.point),
        child_built(
            left_trees,
            node.left,
            node.bounds.lower_part(node.point, node.horizontal),
            !node.horizontal,
            left_points,
            kd,
        ),
        child_built(
            right_trees,
            node.right,
            node.bounds.upper_part(node.point, node.horizontal),
            !node.horizontal,
            right_points,
            kd,
        ),
        right_points.len() <= left_points.len() <= right_points.len() + 1,
    ensures
        child_built(
            right_trees.push(node),
            Some(root),
            node.bounds,
            node.horizontal,
            left_points + seq![node.point] + right_points,
            kd,
        ),
{
    let t = right_trees.push(node);
    let r = right_trees.len() as int;
    assert forall|j: int| 0 <= j < left_trees.len() implies right_trees[j] == left_trees[j] by {
        assert(right_trees.subrange(0, left_trees.len() as int)[j] == right_trees[j]);
    }
    let li = child_index(node.left, r);
    let ri = child_index(node.right, r);
    if node.left is Some {
        lemma_subtree_prefix(left_trees, right_trees, li);
        lemma_subtree_prefix(right_trees, t, li);
    }
    if node.right is Some {
        lemma_subtree_prefix(right_trees, t, ri);
    }
    assert(subtree_points(t, li) == left_points) by {
        if node.left is None {
            assert(left_points =~= Seq::<Point>::empty());
        }
    }
    assert(subtree_points(t, ri) == right_points) by {
        if node.right is None {
            assert(right_points =~= Seq::<Point>::empty());
        }
    }
    assert(subtree_size(t, li) == left_points.len());
    assert(subtree_size(t, ri) == right_points.len());
    assert(subtree_height(t, li) <= bit_length(left_points.len()));
    assert(subtree_height(t, ri) <= bit_length(right_points.len()));
    assert(t[r] == node);
    if kd {
        assert(is_kd_child(t, r, node.left, node.bounds.lower_part(node.point, node.horizontal)));
        assert(is_kd_child(
            t,
            r,
            node.right,
            node.bounds.upper_part(node.point, node.horizontal),
        ));
        assert(is_kd_tree(t, r));
    }
    let n = (left_points + seq![node.point] + right_points).len();
    assert(n == left_points.len() + 1 + right_points.len());
    assert(left_points.len() == n / 2);
    lemma_bit_length_monotonic(right_points.len(), n / 2);
    assert(bit_length(n) == 1 + bit_length(n / 2));
    assert(subtree_size(t, r) == subtree_size(t, li) + 1 + subtree_size(t, ri));
    assert(subtree_height(t, r) <= 1 + bit_length(n / 2));
}

/// No points, no nodes.
proof fn lemma_arena_of_nothing(horizontal: bool, bounds: Bounds, base: nat)
    ensures
        arena_of(Seq::empty(), horizontal, bounds, base) == Seq::<Tree>::empty(),
{
    reveal_with_fuel(arena_of, 1);
}

/// The arena after a node has been pushed over its two finished subtrees
/// is the arena before, followed by the nodes of the whole tree.
proof fn lemma_arena_joined(
    before: Seq<Tree>,
    with_left: Seq<Tree>,
    with_right: Seq<Tree>,
    points: Seq<Point>,
    node: Tree,
)
    requires
        points.len() > 0,
        node.point == points[points.len() as int / 2],
        with_left == before + arena_of(
            points.subrange(0, points.len() as int / 2),
            !node.horizontal,
            node.bounds.lower_part(node.point, node.horizontal),
            before.len(),
        ),
        with_right == with_left + arena_of(
            points.subrange(points.len() as int / 2 + 1, points.len() as int),
            !node.horizontal,
            node.bounds.upper_part(node.point, node.horizontal),
            with_left.len(),
        ),
        with_left.len() == before.len() + points.len() / 2,
        with_right.len() == before.len() + points.len() - 1,
        node.left == (if points.len() / 2 > 0 {
            Some((with_left.len() - 1) as usize)
        } else {
            None
        }),
        node.right == (if points.len() - 1 - points.len() / 2 > 0 {
            Some((with_right.len() - 1) as usize)
        } else {
            None
        }),
    ensures
        with_right.push(node) == before + arena_of(
            points,
            node.horizontal,
            node.bounds,
            before.len(),
        ),
{
    reveal_with_fuel(arena_of, 1);
    let n = points.len();
    let m = n / 2;
    let left = arena_of(
        points.subrange(0, m as int),
        !node.horizontal,
        node.bounds.lower_part(node.point, node.horizontal),
        before.len(),
    );
    let right = arena_of(
        points.subrange(m as int + 1, n as int),
        !node.horizontal,
        node.bounds.upper_part(node.point, node.horizontal),
        before.len() + m,
    );
    assert(arena_of(points, node.horizontal, node.bounds, before.len()) == left + right
        + seq![node]);
    assert(with_right.push(node) =~= before + (left + right + seq![node]));
}

/// Nodes that are roots of k-d trees stay so when the arena grows at its
/// end.
proof fn lemma_roots_kept(a: Seq<Tree>, b: Seq<Tree>, from: int)
    requires
        a.len() <= b.len(),
        b.subrange(0, a.len() as int) == a,
        forall|j: int| from <= j < a.len() ==> is_kd_tree(a, j),
        0 <= from,
    ensures
        forall|j: int| from <= j < a.len() ==> is_kd_tree(b, j),
{
    assert forall|j: int| 0 <= j < a.len() implies a[j] == b[j] by {
        assert(b.subrange(0, a.len() as int)[j] == b[j]);
    }
    assert forall|j: int| from <= j < a.len() implies is_kd_tree(b, j) by {
        lemma_subtree_prefix(a, b, j);
    }
}

/// What holds of the arena once a node has been pushed over its two
/// finished subtrees.
proof fn lemma_build_finished(
    before: Seq<Tree>,
    with_left: Seq<Tree>,
    with_right: Seq<Tree>,
    left_points: Seq<Point>,
    right_points: Seq<Point>,
    node: Tree,
    root: usize,
    kd: bool,
)
    requires
        root == with_right.len(),
        with_left.len() == before.len() + left_points.len(),
        with_right.len() == with_left.len() + right_points.len(),
        with_left.subrange(0, before.len() as int) == before,
        with_right.subrange(0, with_left.len() as int) == with_left,
        kd ==> node.bounds.contains(node.point),
        right_points.len() <= left_points.len() <= right_points.len() + 1,
        child_built(
            with_left,
            node.left,
            node.bounds.lower_part(node.point, node.horizontal),
            !node.horizontal,
            left_points,
            kd,
        ),
        child_built(
            with_right,
            node.right,
            node.bounds.upper_part(node.point, node.horizontal),
            !node.horizontal,
            right_points,
            kd,
        ),
        kd ==> forall|j: int| before.len() <= j < with_left.len() ==> is_kd_tree(with_left, j),
        kd ==> forall|j: int|
            with_left.len() <= j < with_right.len() ==> is_kd_tree(with_right, j),
        with_left == before + arena_of(
            left_points,
            !node.horizontal,
            node.bounds.lower_part(node.point, node.horizontal),
            before.len(),
        ),
        with_right == with_left + arena_of(
            right_points,
            !node.horizontal,
            node.bounds.upper_part(node.point, node.horizontal),
            with_left.len(),
        ),
    ensures
        child_built(
            with_right.push(node),
            Some(root),
            node.bounds,
            node.horizontal,
            left_points + seq![node.point] + right_points,
            kd,
        ),
        kd ==> forall|j: int|
            before.len() <= j < with_right.len() + 1 ==> is_kd_tree(with_right.push(node), j),
        with_right.push(node) == before + arena_of(
            left_points + seq![node.point] + right_points,
            node.horizontal,
            node.bounds,
            before.len(),
        ),
        with_right.push(node).subrange(0, before.len() as int) == before,
{
    let whole = left_points + seq![node.point] + right_points;
    let after = with_right.push(node);
    lemma_node_joined(with_left, with_right, node, left_points, right_points, root, kd);
    assert(after.subrange(0, with_right.len() as int) == with_right);
    if kd {
        lemma_roots_kept(with_left, with_right, before.len() as int);
        lemma_roots_kept(with_right, after, before.len() as int);
    }
    assert(whole.len() as int / 2 == left_points.len());
    assert(whole.subrange(0, left_points.len() as int) =~= left_points);
    assert(whole.subrange(left_points.len() as int + 1, whole.len() as int) =~= right_points);
    assert(whole[left_points.len() as int] == node.point);
    lemma_arena_joined(before, with_left, with_right, whole, node);
    assert forall|j: int| 0 <= j < before.len() implies after[j] == before[j] by {
        assert(with_left.subrange(0, before.len() as int)[j] == with_left[j]);
        assert(with_right.subrange(0, with_left.len() as int)[j] == with_right[j]);
    }
    assert(after.subrange(0, before.len() as int) =~= before);
}

/// After a selection among points of a rectangle, the selected point and
/// the points on either side of it lie in their parts of the rectangle.
proof fn lemma_selected_inside(
    before: Seq<Point>,
    after: Seq<Point>,
    lo: usize,
    hi: usize,
    nth: usize,
    horizontal: bool,
    bounds: Bounds,
)
    requires
        lo <= hi <= before.len(),
        lo + nth < hi,
        before.len() == after.len(),
        range_of(after, lo, hi).to_multiset() == range_of(before, lo, hi).to_multiset(),
        selected_at(after, lo, hi, nth, horizontal),
        all_inside(before, lo, hi, bounds),
    ensures
        bounds.contains(after[lo + nth]),
        all_inside(
            after,
            lo,
            (lo + nth) as usize,
            bounds.lower_part(after[lo + nth], horizontal),
        ),
        all_inside(
            after,
            (lo + nth + 1) as usize,
            hi,
            bounds.upper_part(after[lo + nth], horizontal),
        ),
{
    reveal(all_inside);
    assert forall|i: int| lo <= i < hi implies bounds.contains(#[trigger] after[i]) by {
        let j = lemma_reordered_range_member(before, after, lo, hi, i);
        assert(bounds.contains(before[j]));
    }
    let pivot = after[lo + nth];
    assert forall|i: int| lo <= i < lo + nth implies bounds.lower_part(
        pivot,
        horizontal,
    ).contains(#[trigger] after[i]) by {
        assert(bounds.contains(after[i]));
        assert(coordinate(after[i], horizontal) <= coordinate(pivot, horizontal));
    }
    assert forall|i: int| lo + nth + 1 <= i < hi implies bounds.upper_part(
        pivot,
        horizontal,
    ).contains(#[trigger] after[i]) by {
        assert(bounds.contains(after[i]));
        assert(coordinate(after[i], horizontal) >= coordinate(pivot, horizontal));
    }
}

/// Points that lay in a rectangle lie in it still where nothing changed.
proof fn lemma_inside_kept(
    before: Seq<Point>,
    after: Seq<Point>,
    lo: usize,
    hi: usize,
    changed_lo: usize,
    changed_hi: usize,
    bounds: Bounds,
)
    requires
        unchanged_outside(before, after, changed_lo, changed_hi),
        changed_hi <= lo <= hi <= before.len(),
        all_inside(before, lo, hi, bounds),
    ensures
        all_inside(after, lo, hi, bounds),
{
    reveal(all_inside);
    assert forall|i: int| lo <= i < hi implies bounds.contains(#[trigger] after[i]) by {
        assert(after[i] == before[i]);
        assert(bounds.contains(before[i]));
    }
}

/// A range is in k-d order once a point has been selected in its middle and
/// each side has been put in k-d order by reordering that side alone.
proof fn lemma_order_rejoined(
    points1: Seq<Point>,
    points2: Seq<Point>,
    points3: Seq<Point>,
    lo: usize,
    median: usize,
    hi: usize,
    horizontal: bool,
)
    requires
        lo <= median < hi <= points1.len(),
        median - lo == (hi - lo) / 2,
        selected_at(points1, lo, hi, (median - lo) as usize, horizontal),
        unchanged_outside(points1, points2, lo, median),
        range_of(points2, lo, median).to_multiset() == range_of(points1, lo, median).to_multiset(),
        unchanged_outside(points2, points3, (median + 1) as usize, hi),
        range_of(points3, (median + 1) as usize, hi).to_multiset() == range_of(
            points2,
            (median + 1) as usize,
            hi,
        ).to_multiset(),
        is_kd_order(range_of(points2, lo, median), !horizontal),
        is_kd_order(range_of(points3, (median + 1) as usize, hi), !horizontal),
    ensures
        is_kd_order(range_of(points3, lo, hi), horizontal),
{
    reveal_with_fuel(is_kd_order, 1);
    let whole = range_of(points3, lo, hi);
    let n = whole.len() as int;
    let m = n / 2;
    assert(m == median - lo);
    let pivot = points1[median as int];
    assert(whole[m] == pivot);
    assert forall|i: int| 0 <= i < m implies coordinate(#[trigger] whole[i], horizontal)
        <= coordinate(whole[m], horizontal) by {
        assert(whole[i] == points2[lo + i]);
        let j = lemma_reordered_range_member(points1, points2, lo, median, lo + i);
        assert(coordinate(points1[j], horizontal) <= coordinate(pivot, horizontal));
    }
    assert forall|i: int| m < i < n implies coordinate(#[trigger] whole[i], horizontal)
        >= coordinate(whole[m], horizontal) by {
        assert(whole[i] == points3[lo + i]);
        let j = lemma_reordered_range_member(
            points2,
            points3,
            (median + 1) as usize,
            hi,
            lo + i,
        );
        assert(points2[j] == points1[j]);
        assert(coordinate(points1[j], horizontal) >= coordinate(pivot, horizontal));
    }
    assert(whole.subrange(0, m) =~= range_of(points2, lo, median));
    assert(whole.subrange(m + 1, n) =~= range_of(points3, (median + 1) as usize, hi));
}

/// What holds of the points once both sides of the selected point have
/// been arranged.
proof fn lemma_points_finished(
    points0: Seq<Point>,
    points1: Seq<Point>,
    points2: Seq<Point>,
    points3: Seq<Point>,
    lo: usize,
    median: usize,
    hi: usize,
    horizontal: bool,
)
    requires
        lo <= median < hi <= points0.len(),
        median - lo == (hi - lo) / 2,
        selected_at(points1, lo, hi, (median - lo) as usize, horizontal),
        is_kd_order(range_of(points2, lo, median), !horizontal),
        is_kd_order(range_of(points3, (median + 1) as usize, hi), !horizontal),
        unchanged_outside(points0, points1, lo, hi),
        range_of(points1, lo, hi).to_multiset() == range_of(points0, lo, hi).to_multiset(),
        unchanged_outside(points1, points2, lo, median),
        range_of(points2, lo, median).to_multiset() == range_of(points1, lo, median).to_multiset(),
        unchanged_outside(points2, points3, (median + 1) as usize, hi),
        range_of(points3, (median + 1) as usize, hi).to_multiset() == range_of(
            points2,
            (median + 1) as usize,
            hi,
        ).to_multiset(),
    ensures
        unchanged_outside(points0, points3, lo, hi),
        range_of(points3, lo, hi).to_multiset() == range_of(points0, lo, hi).to_multiset(),
        range_of(points3, lo, median) == range_of(points2, lo, median),
        points3[median as int] == points1[median as int],
        range_of(points3, lo, hi) == range_of(points3, lo, median) + seq![points1[median as int]]
            + range_of(points3, (median + 1) as usize, hi),
        is_kd_order(range_of(points3, lo, hi), horizontal),
{
    lemma_order_rejoined(points1, points2, points3, lo, median, hi, horizontal);
    assert(range_of(points3, lo, median) =~= range_of(points2, lo, median));
    assert(range_of(points2, (median + 1) as usize, hi) =~= range_of(
        points1,
        (median + 1) as usize,
        hi,
    ));
    assert(range_of(points3, lo, hi) =~= range_of(points3, lo, median) + seq![
        points1[median as int],
    ] + range_of(points3, (median + 1) as usize, hi));
    lemma_range_rejoined(points1, points3, lo, median, hi);
}

/// Builds the subtree over `points[lo..hi]` and returns its root, if any.
fn build_range(
    trees: &mut Vec<Tree>,
    points: &mut Vec<Point>,
    lo: usize,
    hi: usize,
    horizontal: bool,
    bounds: Bounds,
) -> (root: Option<usize>)
    requires
        lo <= hi <= old(points).len(),
    ensures
        unchanged_outside(old(points)@, final(points)@, lo, hi),
        range_of(final(points)@, lo, hi).to_multiset() == range_of(
            old(points)@,
            lo,
            hi,
        ).to_multiset(),
        final(trees)@.len() == old(trees)@.len() + (hi - lo),
        final(trees)@.subrange(0, old(trees)@.len() as int) == old(trees)@,
        child_built(
            final(trees)@,
            root,
            bounds,
            horizontal,
            range_of(final(points)@, lo, hi),
            all_inside(old(points)@, lo, hi, bounds),
        ),
        all_inside(old(points)@, lo, hi, bounds) ==> forall|j: int|
            old(trees)@.len() <= j < final(trees)@.len() ==> is_kd_tree(final(trees)@, j),
        final(trees)@ == old(trees)@ + arena_of(
            range_of(final(points)@, lo, hi),
            horizontal,
            bounds,
            old(trees)@.len(),
        ),
        is_kd_order(range_of(final(points)@, lo, hi), horizontal),
    decreases hi - lo,
{
    if lo == hi {
        proof {
            lemma_arena_of_nothing(horizontal, bounds, trees@.len());
            assert(range_of(points@, lo, hi) =~= Seq::<Point>::empty());
            assert(is_kd_order(Seq::<Point>::empty(), horizontal)) by {
                reveal_with_fuel(is_kd_order, 1);
            }
            assert(trees@.subrange(0, trees@.len() as int) == trees@);
            assert(trees@ + Seq::<Tree>::empty() =~= trees@);
        }
        return None;
    }
    let ghost points0 = points@;
    let ghost trees0 = trees@;
    let nth: usize = (hi - lo) / 2;
    let median: usize = lo + nth;
    select_in_range(points, lo, hi, nth, horizontal);
    let ghost points1 = points@;
    let point: Point = points[median];
    let ghost kd = all_inside(points0, lo, hi, bounds);
    proof {
        if kd {
            lemma_selected_inside(points0, points1, lo, hi, nth, horizontal, bounds);
        }
    }
    let (left_bounds, right_bounds): (Bounds, Bounds) = if horizontal {
        (
            Bounds { lower: bounds.lower, upper: Point { x: point.x, y: bounds.upper.y } },
            Bounds { lower: Point { x: point.x, y: bounds.lower.y }, upper: bounds.upper },
        )
    } else {
        (
            Bounds { lower: bounds.lower, upper: Point { x: bounds.upper.x, y: point.y } },
            Bounds { lower: Point { x: bounds.lower.x, y: point.y }, upper: bounds.upper },
        )
    };
    assert(left_bounds == bounds.lower_part(point, horizontal));
    assert(right_bounds == bounds.upper_part(point, horizontal));
    let left: Option<usize> = build_range(trees, points, lo, median, !horizontal, left_bounds);
    let ghost points2 = points@;
    let ghost trees2 = trees@;
    proof {
        if kd {
            lemma_inside_kept(
                points1,
                points2,
                (median + 1) as usize,
                hi,
                lo,
                median,
                right_bounds,
            );
        }
    }
    let right: Option<usize> = build_range(
        trees,
        points,
        median + 1,
        hi,
        !horizontal,
        right_bounds,
    );
    let ghost points3 = points@;
    let ghost trees3 = trees@;
    let node = Tree { point, bounds, horizontal, left, right };
    trees.push(node);
    let root: usize = trees.len() - 1;
    proof {
        lemma_points_finished(points0, points1, points2, points3, lo, median, hi, horizontal);
        lemma_build_finished(
            trees0,
            trees2,
            trees3,
            range_of(points3, lo, median),
            range_of(points3, (median + 1) as usize, hi),
            node,
            root,
            kd,
        );
    }
    Some(root)
}

/// Builds a tree over `points`, the root covering `bounds` and splitting
/// along the given axis, and appends its nodes to `trees`.
///
/// The points are reordered in place: afterwards they stand in the order in
/// which a left-to-right walk of the tree meets them, and the nodes appended
/// are exactly those of `arena_of` for that order. The root is the last node
/// appended; there is none when there are no points. Every subtree is as
/// deep as the number of its points has binary digits, at most. The points
/// come out in k-d order, and if all of them lie in `bounds`, every node
/// appended is the root of a k-d tree.
pub fn make_tree(
    trees: &mut Vec<Tree>,
    points: &mut Vec<Point>,
    horizontal: bool,
    bounds: Bounds,
) -> (root: Option<usize>)
    ensures
        final(points)@.to_multiset() == old(points)@.to_multiset(),
        is_kd_order(final(points)@, horizontal),
        final(trees)@ == old(trees)@ + arena_of(
            final(points)@,
            horizontal,
            bounds,
            old(trees)@.len(),
        ),
        final(trees)@.len() == old(trees)@.len() + old(points)@.len(),
        root is Some <==> old(points)@.len() > 0,
        (forall|i: int| 0 <= i < old(points)@.len() ==> bounds.contains(#[trigger] old(points)@[i]))
            ==> (forall|j: int|
            old(trees)@.len() <= j < final(trees)@.len() ==> is_kd_tree(final(trees)@, j)),
        root matches Some(r) ==> {
            &&& r == final(trees)@.len() - 1
            &&& final(trees)@[r as int].bounds == bounds
            &&& final(trees)@[r as int].horizontal == horizontal
            &&& subtree_points(final(trees)@, r as int) == final(points)@
            &&& subtree_size(final(trees)@, r as int) == old(points)@.len()
            &&& subtree_height(final(trees)@, r as int) <= bit_length(old(points)@.len())
        },
{
    let n: usize = points.len();
    let ghost points0 = points@;
    let root = build_range(trees, points, 0, n, horizontal, bounds);
    proof {
        reveal(all_inside);
        assert(range_of(points@, 0, n) =~= points@);
        assert(range_of(points0, 0, n) =~= points0);
    }
    root
}

/// `v` moved into `lo..=hi` by the shortest way.
pub open spec fn clamped(v: int, lo: int, hi: int) -> int {
    let below = if v <= hi {
        v
    } else {
        hi
    };
    if lo >= below {
        lo
    } else {
        below
    }
}

/// The squared distance from `q` to the rectangle: zero inside it.
pub open spec fn bounds_distance_spec(bounds: Bounds, q: Point) -> int {
    let x = q.x - clamped(q.x as int, bounds.lower.x as int, bounds.upper.x as int);
    let y = q.y - clamped(q.y as int, bounds.lower.y as int, bounds.upper.y as int);
    x * x + y * y
}

/// `p` is another place than `q` and less than the radius away from it.
pub open spec fn is_neighbor(p: Point, q: Point, radius_squared: i128) -> bool {
    p != q && squared_distance_spec(p, q) < radius_squared
}

/// The nodes of the subtree at `i` whose points are neighbors of `q`, in
/// the order in which the search reports them: a node, then what its right
/// subtree gives, then what its left subtree gives. A subtree whose
/// rectangle is too far from `q` gives nothing.
pub open spec fn visited(trees: Seq<Tree>, i: int, q: Point, radius_squared: i128) -> Seq<usize>
    decreases i + 1,
{
    if 0 <= i < trees.len() && bounds_distance_spec(trees[i].bounds, q) < radius_squared {
        let own = if is_neighbor(trees[i].point, q, radius_squared) {
            seq![i as usize]
        } else {
            Seq::empty()
        };
        own + visited(trees, child_index(trees[i].right, i), q, radius_squared) + visited(
            trees,
            child_index(trees[i].left, i),
            q,
            radius_squared,
        )
    } else {
        Seq::empty()
    }
}

/// The nodes that the subtrees waiting on the stack will still report.
spec fn pending(trees: Seq<Tree>, stack: Seq<usize>, q: Point, radius_squared: i128) -> Seq<usize>
    decreases stack.len(),
{
    if stack.len() == 0 {
        Seq::empty()
    } else {
        visited(trees, stack.last() as int, q, radius_squared) + pending(
            trees,
            stack.drop_last(),
            q,
            radius_squared,
        )
    }
}

/// The number of nodes in the subtrees waiting on the stack.
spec fn pending_size(trees: Seq<Tree>, stack: Seq<usize>) -> nat
    decreases stack.len(),
{
    if stack.len() == 0 {
        0
    } else {
        subtree_size(trees, stack.last() as int) + pending_size(trees, stack.drop_last())
    }
}

proof fn lemma_pending_push(
    trees: Seq<Tree>,
    stack: Seq<usize>,
    c: usize,
    q: Point,
    radius_squared: i128,
)
    ensures
        pending(trees, stack.push(c), q, radius_squared) == visited(
            trees,
            c as int,
            q,
            radius_squared,
        ) + pending(trees, stack, q, radius_squared),
        pending_size(trees, stack.push(c)) == subtree_size(trees, c as int) + pending_size(
            trees,
            stack,
        ),
{
    assert(stack.push(c).drop_last() =~= stack);
    assert(stack.push(c).last() == c);
}

/// A stack of existing nodes is no longer than the subtrees it stands for.
proof fn lemma_pending_size_bounds_len(trees: Seq<Tree>, stack: Seq<usize>)
    requires
        forall|k: int| 0 <= k < stack.len() ==> stack[k] < trees.len(),
    ensures
        stack.len() <= pending_size(trees, stack),
    decreases stack.len(),
{
    if stack.len() > 0 {
        lemma_pending_size_bounds_len(trees, stack.drop_last());
        assert(stack.last() == stack[stack.len() - 1]);
        assert(subtree_size(trees, stack.last() as int) >= 1);
    }
}

/// The exact squared distance from `point` to the rectangle.
pub fn bounds_to_point_squared_distance(bounds: &Bounds, point: &Point) -> (d: i128)
    ensures
        d == bounds_distance_spec(*bounds, *point),
{
    let below_x: i32 = if point.x <= bounds.upper.x {
        point.x
    } else {
        bounds.upper.x
    };
    let near_x: i32 = if bounds.lower.x >= below_x {
        bounds.lower.x
    } else {
        below_x
    };
    let below_y: i32 = if point.y <= bounds.upper.y {
        point.y
    } else {
        bounds.upper.y
    };
    let near_y: i32 = if bounds.lower.y >= below_y {
        bounds.lower.y
    } else {
        below_y
    };
    squared_distance(point, &Point { x: near_x, y: near_y })
}

/// Appends to `neighbors` the nodes of the subtree at `init_index` whose
/// points are neighbors of `point`, skipping every subtree whose rectangle
/// lies at the radius or beyond.
pub fn search_trees(
    point: &Point,
    trees: &Vec<Tree>,
    init_index: usize,
    radius_squared: i128,
    neighbors: &mut ArrayVec<usize, 512>,
)
    requires
        items(*old(neighbors)).len() + subtree_size(trees@, init_index as int) <= CAPACITY,
    ensures
        items(*final(neighbors)) == items(*old(neighbors)) + visited(
            trees@,
            init_index as int,
            *point,
            radius_squared,
        ),
{
    let mut stack: ArrayVec<usize, 512> = list_new();
    if init_index < trees.len() {
        list_push(&mut stack, init_index);
        proof {
            lemma_pending_push(trees@, Seq::empty(), init_index, *point, radius_squared);
            assert(items(stack) =~= Seq::<usize>::empty().push(init_index));
        }
    }
    while list_len(&stack) > 0
        invariant
            forall|k: int| 0 <= k < items(stack).len() ==> items(stack)[k] < trees.len(),
            items(*neighbors).len() + pending_size(trees@, items(stack)) <= CAPACITY,
            items(*neighbors) + pending(trees@, items(stack), *point, radius_squared) == items(
                *old(neighbors),
            ) + visited(trees@, init_index as int, *point, radius_squared),
        decreases pending_size(trees@, items(stack)),
    {
        let ghost before = items(stack);
        let ghost found = items(*neighbors);
        let index: usize = list_pop(&mut stack).unwrap();
        let ghost rest = items(stack);
        proof {
            assert(index == before[before.len() - 1]);
            lemma_pending_size_bounds_len(trees@, rest);
            assert(subtree_size(trees@, index as int) >= 1);
        }
        let tree: &Tree = &trees[index];
        if bounds_to_point_squared_distance(&tree.bounds, point) < radius_squared {
            if (point.x != tree.point.x || point.y != tree.point.y) && squared_distance(
                &tree.point,
                point,
            ) < radius_squared {
                list_push(neighbors, index);
            }
            let ghost left = child_index(tree.left, index as int);
            let ghost right = child_index(tree.right, index as int);
            if let Some(c) = tree.left {
                if c < index {
                    list_push(&mut stack, c);
                    proof {
                        lemma_pending_push(trees@, rest, c, *point, radius_squared);
                    }
                }
            }
            let ghost middle = items(stack);
            proof {
                assert(pending(trees@, middle, *point, radius_squared) == visited(
                    trees@,
                    left,
                    *point,
                    radius_squared,
                ) + pending(trees@, rest, *point, radius_squared));
                assert(pending_size(trees@, middle) == subtree_size(trees@, left) + pending_size(
                    trees@,
                    rest,
                ));
                lemma_pending_size_bounds_len(trees@, middle);
            }
            if let Some(c) = tree.right {
                if c < index {
                    list_push(&mut stack, c);
                    proof {
                        lemma_pending_push(trees@, middle, c, *point, radius_squared);
                    }
                }
            }
            proof {
                let own: Seq<usize> = if is_neighbor(tree.point, *point, radius_squared) {
                    seq![index]
                } else {
                    Seq::empty()
                };
                let vr = visited(trees@, right, *point, radius_squared);
                let vl = visited(trees@, left, *point, radius_squared);
                let pr = pending(trees@, rest, *point, radius_squared);
                assert(items(*neighbors) =~= found + own);
                assert(pending(trees@, items(stack), *point, radius_squared) == vr + (vl + pr));
                assert(pending(trees@, before, *point, radius_squared) == (own + vr + vl) + pr);
                assert((found + own) + (vr + (vl + pr)) =~= found + ((own + vr + vl) + pr));
            }
        }
    }
    proof {
        assert(pending(trees@, items(stack), *point, radius_squared) =~= Seq::<usize>::empty());
        assert(items(*neighbors) + Seq::<usize>::empty() =~= items(*neighbors));
    }
}

/// The weight of the point that node `j` holds.
pub open spec fn node_weight(trees: Seq<Tree>, weight: spec_fn(Point) -> int) -> spec_fn(
    usize,
) -> int {
    |j: usize| weight(trees[j as int].point)
}

/// The weight of `p` if it is a neighbor of `q`, and zero if not.
pub open spec fn neighbor_weight(
    q: Point,
    radius_squared: i128,
    weight: spec_fn(Point) -> int,
) -> spec_fn(Point) -> int {
    |p: Point|
        if is_neighbor(p, q, radius_squared) {
            weight(p)
        } else {
            0
        }
}

/// Every point of a k-d tree lies in the rectangle of the tree's root,
/// which is a rectangle indeed.
pub proof fn lemma_subtree_within_bounds(trees: Seq<Tree>, i: int)
    requires
        is_kd_tree(trees, i),
    ensures
        trees[i].bounds.wf(),
        forall|k: int|
            0 <= k < subtree_points(trees, i).len() ==> trees[i].bounds.contains(
                #[trigger] subtree_points(trees, i)[k],
            ),
    decreases i + 1,
{
    let t = trees[i];
    let l = child_index(t.left, i);
    let r = child_index(t.right, i);
    let lp = subtree_points(trees, l);
    let rp = subtree_points(trees, r);
    if t.left is Some {
        lemma_subtree_within_bounds(trees, l);
    }
    if t.right is Some {
        lemma_subtree_within_bounds(trees, r);
    }
    assert forall|k: int| 0 <= k < subtree_points(trees, i).len() implies t.bounds.contains(
        #[trigger] subtree_points(trees, i)[k],
    ) by {
        let p = subtree_points(trees, i)[k];
        if k < lp.len() {
            assert(p == lp[k]);
            assert(trees[l].bounds.contains(lp[k]));
        } else if k == lp.len() {
            assert(p == t.point);
        } else {
            assert(p == rp[k - lp.len() - 1]);
            assert(trees[r].bounds.contains(rp[k - lp.len() - 1]));
        }
    }
}

/// In a k-d tree no point of a node's left subtree lies above the node's
/// point on the node's split axis, and no point of its right subtree lies
/// below it.
pub proof fn lemma_subtrees_partitioned(trees: Seq<Tree>, i: int)
    requires
        is_kd_tree(trees, i),
    ensures
        forall|k: int|
            0 <= k < subtree_points(trees, child_index(trees[i].left, i)).len() ==> coordinate(
                #[trigger] subtree_points(trees, child_index(trees[i].left, i))[k],
                trees[i].horizontal,
            ) <= coordinate(trees[i].point, trees[i].horizontal),
        forall|k: int|
            0 <= k < subtree_points(trees, child_index(trees[i].right, i)).len() ==> coordinate(
                #[trigger] subtree_points(trees, child_index(trees[i].right, i))[k],
                trees[i].horizontal,
            ) >= coordinate(trees[i].point, trees[i].horizontal),
{
    let t = trees[i];
    let l = child_index(t.left, i);
    let r = child_index(t.right, i);
    if t.left is Some {
        lemma_subtree_within_bounds(trees, l);
    }
    if t.right is Some {
        lemma_subtree_within_bounds(trees, r);
    }
    assert forall|k: int| 0 <= k < subtree_points(trees, l).len() implies coordinate(
        #[trigger] subtree_points(trees, l)[k],
        t.horizontal,
    ) <= coordinate(t.point, t.horizontal) by {
        assert(trees[l].bounds.contains(subtree_points(trees, l)[k]));
    }
    assert forall|k: int| 0 <= k < subtree_points(trees, r).len() implies coordinate(
        #[trigger] subtree_points(trees, r)[k],
        t.horizontal,
    ) >= coordinate(t.point, t.horizontal) by {
        assert(trees[r].bounds.contains(subtree_points(trees, r)[k]));
    }
}

/// No point of a rectangle is nearer to `q` than the rectangle is.
pub proof fn lemma_rectangle_is_nearest(bounds: Bounds, p: Point, q: Point)
    requires
        bounds.contains(p),
    ensures
        bounds_distance_spec(bounds, q) <= squared_distance_spec(p, q),
{
    let cx = clamped(q.x as int, bounds.lower.x as int, bounds.upper.x as int);
    let cy = clamped(q.y as int, bounds.lower.y as int, bounds.upper.y as int);
    let dx = q.x - cx;
    let dy = q.y - cy;
    let px = p.x - q.x;
    let py = p.y - q.y;
    assert(dx * dx <= px * px) by (nonlinear_arith)
        requires
            (0 <= dx <= -px) || (0 >= dx >= -px),
    ;
    assert(dy * dy <= py * py) by (nonlinear_arith)
        requires
            (0 <= dy <= -py) || (0 >= dy >= -py),
    ;
}

/// Whatever weight each point carries, the nodes that a search of a k-d
/// tree reports weigh together exactly what the neighbors of `q` among the
/// tree's points weigh: the search reports every neighbor once and nothing
/// else, whatever the shape of the tree.
pub proof fn lemma_search_weighs_neighbors(
    trees: Seq<Tree>,
    i: int,
    q: Point,
    radius_squared: i128,
    weight: spec_fn(Point) -> int,
)
    requires
        trees.len() <= usize::MAX,
        is_kd_tree(trees, i) || !(0 <= i < trees.len()),
    ensures
        total(visited(trees, i, q, radius_squared), node_weight(trees, weight)) == total(
            subtree_points(trees, i),
            neighbor_weight(q, radius_squared, weight),
        ),
    decreases i + 1,
{
    let nw = node_weight(trees, weight);
    let pw = neighbor_weight(q, radius_squared, weight);
    if 0 <= i < trees.len() {
        let t = trees[i];
        let l = child_index(t.left, i);
        let r = child_index(t.right, i);
        let lp = subtree_points(trees, l);
        let rp = subtree_points(trees, r);
        let one = seq![t.point];
        lemma_total_concat(lp + one, rp, pw);
        lemma_total_concat(lp, one, pw);
        assert(total(one, pw) == pw(t.point)) by {
            assert(one.drop_last() =~= Seq::<Point>::empty());
            assert(one.last() == t.point);
            assert(total(one.drop_last(), pw) == 0);
        }
        if bounds_distance_spec(t.bounds, q) < radius_squared {
            lemma_search_weighs_neighbors(trees, l, q, radius_squared, weight);
            lemma_search_weighs_neighbors(trees, r, q, radius_squared, weight);
            let own: Seq<usize> = if is_neighbor(t.point, q, radius_squared) {
                seq![i as usize]
            } else {
                Seq::empty()
            };
            let vr = visited(trees, r, q, radius_squared);
            let vl = visited(trees, l, q, radius_squared);
            lemma_total_concat(own + vr, vl, nw);
            lemma_total_concat(own, vr, nw);
            assert(total(own, nw) == pw(t.point)) by {
                if is_neighbor(t.point, q, radius_squared) {
                    assert(own.drop_last() =~= Seq::<usize>::empty());
                    assert(own.last() == i as usize);
                    assert(total(own.drop_last(), nw) == 0);
                }
            }
        } else {
            lemma_subtree_within_bounds(trees, i);
            let sp = subtree_points(trees, i);
            assert forall|k: int| 0 <= k < sp.len() implies 0 <= #[trigger] pw(sp[k]) <= 0 by {
                lemma_rectangle_is_nearest(t.bounds, sp[k], q);
                assert(squared_distance_spec(sp[k], q) == squared_distance_spec(q, sp[k]))
                    by (nonlinear_arith);
            }
            lemma_total_bounds(sp, pw, 0, 0);
        }
    }
}

/// A search reports only nodes of the arena.
pub proof fn lemma_visited_in_range(trees: Seq<Tree>, i: int, q: Point, radius_squared: i128)
    requires
        trees.len() <= usize::MAX,
    ensures
        forall|k: int|
            0 <= k < visited(trees, i, q, radius_squared).len() ==> (#[trigger] visited(
                trees,
                i,
                q,
                radius_squared,
            )[k]) < trees.len(),
    decreases i + 1,
{
    if 0 <= i < trees.len() {
        let l = child_index(trees[i].left, i);
        let r = child_index(trees[i].right, i);
        lemma_visited_in_range(trees, l, q, radius_squared);
        lemma_visited_in_range(trees, r, q, radius_squared);
        let v = visited(trees, i, q, radius_squared);
        let vr = visited(trees, r, q, radius_squared);
        let vl = visited(trees, l, q, radius_squared);
        assert forall|k: int| 0 <= k < v.len() implies (#[trigger] v[k]) < trees.len() by {
            let own = v.len() - vr.len() - vl.len();
            if k < own {
                assert(v[k] == i as usize);
            } else if k < own + vr.len() {
                assert(v[k] == vr[k - own]);
            } else {
                assert(v[k] == vl[k - own - vr.len()]);
            }
        }
    }
}

/// The smallest rectangle that holds every point of `points`.
pub open spec fn is_bounding_box(bounds: Bounds, points: Seq<Point>) -> bool {
    &&& forall|i: int| 0 <= i < points.len() ==> bounds.contains(#[trigger] points[i])
    &&& exists|i: int| 0 <= i < points.len() && points[i].x == bounds.lower.x
    &&& exists|i: int| 0 <= i < points.len() && points[i].y == bounds.lower.y
    &&& exists|i: int| 0 <= i < points.len() && points[i].x == bounds.upper.x
    &&& exists|i: int| 0 <= i < points.len() && points[i].y == bounds.upper.y
}

/// The smallest rectangle that holds every point, if there is any point.
pub fn bounding_box(points: &Vec<Point>) -> (bounds: Option<Bounds>)
    ensures
        bounds is Some <==> points.len() > 0,
        bounds matches Some(b) ==> is_bounding_box(b, points@),
{
    if points.len() == 0 {
        return None;
    }
    let mut b = Bounds { lower: points[0], upper: points[0] };
    let mut i: usize = 1;
    proof {
        let first = points@.subrange(0, 1);
        assert(first[0] == points@[0]);
    }
    while i < points.len()
        invariant
            1 <= i <= points.len(),
            is_bounding_box(b, points@.subrange(0, i as int)),
        decreases points.len() - i,
    {
        let ghost seen = points@.subrange(0, i as int);
        let ghost more = points@.subrange(0, i + 1);
        let ghost old_b = b;
        let p: Point = points[i];
        if p.x < b.lower.x {
            b.lower.x = p.x;
        }
        if p.y < b.lower.y {
            b.lower.y = p.y;
        }
        if p.x > b.upper.x {
            b.upper.x = p.x;
        }
        if p.y > b.upper.y {
            b.upper.y = p.y;
        }
        proof {
            assert(more[i as int] == p);
            assert forall|k: int| 0 <= k < more.len() implies b.contains(#[trigger] more[k]) by {
                if k < i {
                    assert(old_b.contains(seen[k]));
                }
            }
            let k0 = choose|k: int| 0 <= k < seen.len() && seen[k].x == old_b.lower.x;
            assert(more[k0] == seen[k0]);
            let k1 = choose|k: int| 0 <= k < seen.len() && seen[k].y == old_b.lower.y;
            assert(more[k1] == seen[k1]);
            let k2 = choose|k: int| 0 <= k < seen.len() && seen[k].x == old_b.upper.x;
            assert(more[k2] == seen[k2]);
            let k3 = choose|k: int| 0 <= k < seen.len() && seen[k].y == old_b.upper.y;
            assert(more[k3] == seen[k3]);
            assert(more[k0].x == b.lower.x || more[i as int].x == b.lower.x);
            assert(more[k1].y == b.lower.y || more[i as int].y == b.lower.y);
            assert(more[k2].x == b.upper.x || more[i as int].x == b.upper.x);
            assert(more[k3].y == b.upper.y || more[i as int].y == b.upper.y);
        }
        i += 1;
    }
    proof {
        assert(points@.subrange(0, i as int) =~= points@);
    }
    Some(b)
}

/// Counts a point as one.
pub open spec fn unit_weight() -> spec_fn(Point) -> int {
    |p: Point| 1int
}

/// Counts the point `p` as one and any other point as nothing.
pub open spec fn only(p: Point) -> spec_fn(Point) -> int {
    |x: Point|
        if x == p {
            1int
        } else {
            0int
        }
}

/// A search of a k-d tree built over some points gives what going through
/// all of the points one by one would give: whatever weight each point
/// carries, the nodes reported weigh together what the neighbors of `q`
/// among the points weigh. Neither the order of the points nor the shape of
/// the tree matters.
pub proof fn lemma_search_matches_brute_force(
    points: Seq<Point>,
    trees: Seq<Tree>,
    root: int,
    q: Point,
    radius_squared: i128,
    weight: spec_fn(Point) -> int,
)
    requires
        trees.len() <= usize::MAX,
        is_kd_tree(trees, root),
        subtree_points(trees, root).to_multiset() == points.to_multiset(),
    ensures
        total(visited(trees, root, q, radius_squared), node_weight(trees, weight)) == total(
            points,
            neighbor_weight(q, radius_squared, weight),
        ),
{
    lemma_search_weighs_neighbors(trees, root, q, radius_squared, weight);
    lemma_total_permutation(
        subtree_points(trees, root),
        points,
        neighbor_weight(q, radius_squared, weight),
    );
}

/// A search of a k-d tree built over some points reports as many nodes as
/// there are neighbors of `q` among the points, and a node with the point
/// `p` exactly when `p` is one of the points and a neighbor of `q`.
pub proof fn lemma_search_finds_the_neighbors(
    points: Seq<Point>,
    trees: Seq<Tree>,
    root: int,
    q: Point,
    radius_squared: i128,
    p: Point,
)
    requires
        trees.len() <= usize::MAX,
        is_kd_tree(trees, root),
        subtree_points(trees, root).to_multiset() == points.to_multiset(),
    ensures
        visited(trees, root, q, radius_squared).len() == total(
            points,
            neighbor_weight(q, radius_squared, unit_weight()),
        ),
        (exists|k: int|
            0 <= k < visited(trees, root, q, radius_squared).len() && trees[visited(
                trees,
                root,
                q,
                radius_squared,
            )[k] as int].point == p) <==> (points.contains(p) && is_neighbor(p, q, radius_squared)),
{
    let found = visited(trees, root, q, radius_squared);
    lemma_search_matches_brute_force(points, trees, root, q, radius_squared, unit_weight());
    lemma_total_bounds(found, node_weight(trees, unit_weight()), 1, 1);
    let nw = node_weight(trees, only(p));
    let pw = neighbor_weight(q, radius_squared, only(p));
    lemma_search_matches_brute_force(points, trees, root, q, radius_squared, only(p));
    lemma_total_positive(found, nw);
    lemma_total_positive(points, pw);
    if exists|k: int| 0 <= k < found.len() && trees[found[k] as int].point == p {
        let k = choose|k: int| 0 <= k < found.len() && trees[found[k] as int].point == p;
        assert(nw(found[k]) > 0);
        let m = choose|m: int| 0 <= m < points.len() && #[trigger] pw(points[m]) > 0;
        assert(points[m] == p);
    }
    if points.contains(p) && is_neighbor(p, q, radius_squared) {
        let m = choose|m: int| 0 <= m < points.len() && points[m] == p;
        assert(pw(points[m]) > 0);
        let k = choose|k: int| 0 <= k < found.len() && #[trigger] nw(found[k]) > 0;
        assert(trees[found[k] as int].point == p);
    }
}

} // verus!

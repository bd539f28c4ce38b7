//! A ring of nodes that grows by subdividing long edges and is relaxed
//! toward the midpoints of its neighbors and away from crowded places.

use crate::index_list::{items, list_clear, list_get, list_len, list_new, CAPACITY};
pub use crate::kdtree::Bounds;
use crate::kdtree::{
    bounding_box, is_kd_tree, lemma_search_weighs_neighbors, lemma_visited_in_range, make_tree,
    neighbor_weight, node_weight, search_trees, subtree_points, subtree_size, unit_weight,
    visited, Tree,
};
use crate::point::{
    div_toward_zero, lemma_div_toward_zero_bounds, lemma_mean_bounds, midpoint, midpoint_spec,
    points_between, squared_distance, squared_distance_spec,
};
pub use crate::point::Point;
use crate::random::sample_between;
use crate::sums::{lemma_total_bounds, lemma_total_permutation, lemma_total_scaled, total};
use arrayvec::ArrayVec;
use rand::rngs::ThreadRng;
use vstd::prelude::*;

verus! {

/// One node of the ring: where it is, and which nodes stand to either side.
#[derive(Clone, Copy, Debug, PartialEq, Eq, Structural)]
pub struct Node {
    pub point: Point,
    pub left_index: usize,
    pub right_index: usize,
}

/// The number of nodes that a fresh ring starts with.
pub const NODES_INIT: usize = 3;

/// Every link names a node of the arena.
pub open spec fn links_in_range(nodes: Seq<Node>) -> bool {
    forall|i: int|
        0 <= i < nodes.len() ==> (#[trigger] nodes[i]).left_index < nodes.len()
            && nodes[i].right_index < nodes.len()
}

/// Going right and then left, or left and then right, leads back.
pub open spec fn links_mutual(nodes: Seq<Node>) -> bool {
    &&& links_in_range(nodes)
    &&& forall|i: int|
        0 <= i < nodes.len() ==> nodes[(#[trigger] nodes[i]).right_index as int].left_index == i
            && nodes[nodes[i].left_index as int].right_index == i
}

/// The place after `k` on a cycle of `n` places.
pub open spec fn next_place(k: int, n: int) -> int {
    if k + 1 == n {
        0
    } else {
        k + 1
    }
}

/// `order` lists every node exactly once, each followed by its right
/// neighbor and the last followed by the first.
pub open spec fn is_ring_order(nodes: Seq<Node>, order: Seq<usize>) -> bool {
    &&& order.len() == nodes.len()
    &&& order.no_duplicates()
    &&& forall|i: usize| i < nodes.len() ==> #[trigger] order.contains(i)
    &&& forall|k: int|
        0 <= k < order.len() ==> (#[trigger] order[k]) < nodes.len() && nodes[order[k] as int].right_index
            == order[next_place(k, order.len() as int)]
}

/// The links form one cycle through all the nodes, and left and right undo
/// each other.
pub open spec fn is_ring(nodes: Seq<Node>) -> bool {
    &&& links_mutual(nodes)
    &&& exists|order: Seq<usize>| is_ring_order(nodes, order)
}

/// The node reached from `start` by following `right` links `steps` times.
pub open spec fn walk(nodes: Seq<Node>, start: usize, steps: nat) -> usize
    decreases steps,
{
    if steps == 0 {
        start
    } else {
        nodes[walk(nodes, start, (steps - 1) as nat) as int].right_index
    }
}

/// The place `j` steps after place `k` on a cycle of `n` places, for a `j`
/// of at most `n`.
pub open spec fn place_after(k: int, j: int, n: int) -> int {
    if k + j < n {
        k + j
    } else {
        k + j - n
    }
}

/// A walk from `start` meets node `i` before it has made as many steps as
/// there are nodes.
pub open spec fn meets(nodes: Seq<Node>, start: usize, i: usize) -> bool {
    exists|j: nat| j < nodes.len() && #[trigger] walk(nodes, start, j) == i
}

proof fn lemma_walk_follows_order(nodes: Seq<Node>, order: Seq<usize>, k: int, j: nat)
    requires
        is_ring_order(nodes, order),
        0 <= k < nodes.len(),
        j <= nodes.len(),
    ensures
        walk(nodes, order[k], j) == order[place_after(k, j as int, nodes.len() as int)],
    decreases j,
{
    if j > 0 {
        let n = nodes.len() as int;
        lemma_walk_follows_order(nodes, order, k, (j - 1) as nat);
        let at = place_after(k, j - 1, n);
        assert(nodes[order[at] as int].right_index == order[next_place(at, n)]);
    }
}

/// In a ring, following `right` links from any node leads back to that
/// node after as many steps as there are nodes, and on the way meets every
/// node exactly once.
pub proof fn lemma_ring_walk(nodes: Seq<Node>, start: usize)
    requires
        is_ring(nodes),
        start < nodes.len(),
    ensures
        walk(nodes, start, nodes.len()) == start,
        forall|i: usize| i < nodes.len() ==> #[trigger] meets(nodes, start, i),
        forall|a: nat, b: nat|
            a < b < nodes.len() ==> #[trigger] walk(nodes, start, a) != #[trigger] walk(
                nodes,
                start,
                b,
            ),
{
    let n = nodes.len() as int;
    let order = choose|order: Seq<usize>| is_ring_order(nodes, order);
    assert(order.contains(start));
    let k = choose|k: int| 0 <= k < order.len() && order[k] == start;
    lemma_walk_follows_order(nodes, order, k, nodes.len());
    assert forall|i: usize| i < nodes.len() implies #[trigger] meets(nodes, start, i) by {
        assert(order.contains(i));
        let m = choose|m: int| 0 <= m < order.len() && order[m] == i;
        let j: nat = if m >= k {
            (m - k) as nat
        } else {
            (m - k + n) as nat
        };
        lemma_walk_follows_order(nodes, order, k, j);
        assert(walk(nodes, start, j) == i);
    }
    assert forall|a: nat, b: nat| a < b < nodes.len() implies #[trigger] walk(nodes, start, a)
        != #[trigger] walk(nodes, start, b) by {
        lemma_walk_follows_order(nodes, order, k, a);
        lemma_walk_follows_order(nodes, order, k, b);
        assert(place_after(k, a as int, n) != place_after(k, b as int, n));
    }
}

/// The ring of `points.len()` nodes, node `i` at `points[i]` between nodes
/// `i - 1` and `i + 1`, the last node meeting the first.
pub open spec fn ring_of(points: Seq<Point>) -> Seq<Node> {
    Seq::new(
        points.len(),
        |i: int|
            Node {
                point: points[i],
                left_index: (if i == 0 {
                    points.len() - 1
                } else {
                    i - 1
                }) as usize,
                right_index: next_place(i, points.len() as int) as usize,
            },
    )
}

/// A ring laid out in arena order is a ring.
pub proof fn lemma_ring_of_is_ring(points: Seq<Point>)
    requires
        points.len() <= usize::MAX,
    ensures
        is_ring(ring_of(points)),
{
    let nodes = ring_of(points);
    let order = Seq::new(points.len(), |k: int| k as usize);
    assert forall|i: usize| i < nodes.len() implies #[trigger] order.contains(i) by {
        assert(order[i as int] == i);
    }
    assert(is_ring_order(nodes, order));
}

/// Replaces the arena by the ring through the given points, in their order.
pub fn init_ring(nodes: &mut Vec<Node>, points: &Vec<Point>)
    ensures
        final(nodes)@ == ring_of(points@),
        is_ring(final(nodes)@),
{
    nodes.clear();
    let n: usize = points.len();
    let mut i: usize = 0;
    while i < n
        invariant
            n == points.len(),
            i <= n,
            nodes@ == ring_of(points@).subrange(0, i as int),
        decreases n - i,
    {
        let left_index: usize = if i == 0 {
            n - 1
        } else {
            i - 1
        };
        let right_index: usize = if i + 1 == n {
            0
        } else {
            i + 1
        };
        nodes.push(Node { point: points[i], left_index, right_index });
        i += 1;
        assert(nodes@ =~= ring_of(points@).subrange(0, i as int));
    }
    proof {
        assert(nodes@ =~= ring_of(points@));
        lemma_ring_of_is_ring(points@);
    }
}

/// Replaces the arena by a ring of `NODES_INIT` nodes whose coordinates are
/// drawn from `lower` up to but not including `upper`.
pub fn init_nodes(rng: &mut ThreadRng, lower: i32, upper: i32, nodes: &mut Vec<Node>)
    requires
        lower < upper,
    ensures
        final(nodes)@.len() == NODES_INIT,
        is_ring(final(nodes)@),
        exists|points: Seq<Point>|
            points_between(points, lower as int, upper as int) && final(nodes)@ == ring_of(points),
{
    let mut points: Vec<Point> = Vec::new();
    let mut i: usize = 0;
    while i < NODES_INIT
        invariant
            lower < upper,
            i <= NODES_INIT,
            points.len() == i,
            forall|k: int|
                0 <= k < i ==> lower <= (#[trigger] points@[k]).x < upper && lower <= points@[k].y
                    < upper,
        decreases NODES_INIT - i,
    {
        let x: i32 = sample_between(rng, lower, upper);
        let y: i32 = sample_between(rng, lower, upper);
        points.push(Point { x, y });
        i += 1;
    }
    init_ring(nodes, &points);
    assert(points_between(points@, lower as int, upper as int));
}

/// The arena after the edge from node `left` to its right neighbor has been
/// subdivided: a new last node at the edge's midpoint, linked in between
/// the two.
pub open spec fn insert_node_spec(nodes: Seq<Node>, left: int) -> Seq<Node> {
    let index = nodes.len() as usize;
    let right = nodes[left].right_index;
    let pushed = nodes.push(
        Node {
            point: midpoint_spec(nodes[left].point, nodes[right as int].point),
            left_index: left as usize,
            right_index: right,
        },
    );
    let relinked = pushed.update(left, Node { right_index: index, ..pushed[left] });
    relinked.update(right as int, Node { left_index: index, ..relinked[right as int] })
}

/// Subdivides the edge from node `left_index` to its right neighbor.
pub fn insert_node(nodes: &mut Vec<Node>, left_index: usize)
    requires
        left_index < old(nodes).len(),
        old(nodes)[left_index as int].right_index < old(nodes).len(),
    ensures
        final(nodes)@ == insert_node_spec(old(nodes)@, left_index as int),
        inserted_shape(old(nodes)@, left_index as int, final(nodes)@),
        links_in_range(old(nodes)@) ==> links_in_range(final(nodes)@),
        is_ring(old(nodes)@) ==> is_ring(final(nodes)@),
{
    let index: usize = nodes.len();
    let right_index: usize = nodes[left_index].right_index;
    let point: Point = midpoint(&nodes[left_index].point, &nodes[right_index].point);
    nodes.push(Node { point, left_index, right_index });
    let left: Node = nodes[left_index];
    nodes.set(left_index, Node { right_index: index, ..left });
    let right: Node = nodes[right_index];
    nodes.set(right_index, Node { left_index: index, ..right });
    let grown: usize = nodes.len();
    proof {
        lemma_insert_shape(old(nodes)@, left_index as int);
        if is_ring(old(nodes)@) {
            lemma_insert_keeps_ring(old(nodes)@, left_index as int);
        }
    }
}

/// What subdividing an edge changes, link by link.
pub open spec fn inserted_shape(nodes: Seq<Node>, left: int, after: Seq<Node>) -> bool {
    let n = nodes.len();
    let right = nodes[left].right_index;
    &&& after.len() == n + 1
    &&& after[n as int].left_index == left
    &&& after[n as int].right_index == right
    &&& after[n as int].point == midpoint_spec(nodes[left].point, nodes[right as int].point)
    &&& forall|i: int|
        0 <= i < n ==> {
            &&& (#[trigger] after[i]).point == nodes[i].point
            &&& after[i].right_index == if i == left {
                n as usize
            } else {
                nodes[i].right_index
            }
            &&& after[i].left_index == if i == right {
                n as usize
            } else {
                nodes[i].left_index
            }
        }
}

proof fn lemma_insert_shape(nodes: Seq<Node>, left: int)
    requires
        0 <= left < nodes.len() < usize::MAX,
        nodes[left].right_index < nodes.len(),
    ensures
        inserted_shape(nodes, left, insert_node_spec(nodes, left)),
        links_in_range(nodes) ==> links_in_range(insert_node_spec(nodes, left)),
{
    let after = insert_node_spec(nodes, left);
    if links_in_range(nodes) {
        assert forall|i: int| 0 <= i < after.len() implies (#[trigger] after[i]).left_index
            < after.len() && after[i].right_index < after.len() by {
            if i < nodes.len() {
                assert(nodes[i].left_index < nodes.len());
            }
        }
    }
}

proof fn lemma_insert_keeps_links_mutual(nodes: Seq<Node>, left: int, after: Seq<Node>)
    requires
        links_mutual(nodes),
        0 <= left < nodes.len() < usize::MAX,
        inserted_shape(nodes, left, after),
    ensures
        links_mutual(after),
{
    let n = nodes.len() as int;
    let right = nodes[left].right_index as int;
    assert(nodes[right].left_index == left);
    assert(after[n].left_index == left);
    assert forall|i: int| 0 <= i < after.len() implies (#[trigger] after[i]).left_index
        < after.len() && after[i].right_index < after.len() by {
        if i < n {
            assert(nodes[i].left_index < n);
        }
    }
    assert forall|i: int| 0 <= i < after.len() implies after[(#[trigger] after[i]).right_index as int].left_index
        == i && after[after[i].left_index as int].right_index == i by {
        if i < n {
            let r = nodes[i].right_index as int;
            let l = nodes[i].left_index as int;
            assert(nodes[r].left_index == i);
            assert(nodes[l].right_index == i);
            assert(after[i].point == nodes[i].point);
            assert(after[r].point == nodes[r].point);
            assert(after[l].point == nodes[l].point);
        } else {
            assert(after[left].point == nodes[left].point);
            assert(after[right].point == nodes[right].point);
        }
    }
}

/// The order of a ring with the new node put in after place `k`.
spec fn grown_order(order: Seq<usize>, k: int, index: usize) -> Seq<usize> {
    Seq::new(
        order.len() + 1,
        |j: int|
            if j <= k {
                order[j]
            } else if j == k + 1 {
                index
            } else {
                order[j - 1]
            },
    )
}

proof fn lemma_grown_order_lists_all(nodes: Seq<Node>, order: Seq<usize>, k: int)
    requires
        nodes.len() < usize::MAX,
        is_ring_order(nodes, order),
        0 <= k < order.len(),
    ensures
        grown_order(order, k, nodes.len() as usize).no_duplicates(),
        forall|i: usize|
            i < nodes.len() + 1 ==> #[trigger] grown_order(order, k, nodes.len() as usize).contains(
                i,
            ),
{
    let n = nodes.len() as int;
    let grown = grown_order(order, k, n as usize);
    assert forall|a: int, b: int| 0 <= a < grown.len() && 0 <= b < grown.len() && a != b implies grown[a]
        != grown[b] by {
        let oa = if a <= k {
            a
        } else {
            a - 1
        };
        let ob = if b <= k {
            b
        } else {
            b - 1
        };
        if a != k + 1 {
            assert(order[oa] < n);
        }
        if b != k + 1 {
            assert(order[ob] < n);
        }
    }
    assert forall|i: usize| i < n + 1 implies #[trigger] grown.contains(i) by {
        if i < n {
            assert(order.contains(i));
            let j = choose|j: int| 0 <= j < order.len() && order[j] == i;
            let g = if j <= k {
                j
            } else {
                j + 1
            };
            assert(grown[g] == i);
        } else {
            assert(grown[k + 1] == i);
        }
    }
}

proof fn lemma_grown_order_follows_links(
    nodes: Seq<Node>,
    left: int,
    after: Seq<Node>,
    order: Seq<usize>,
    k: int,
)
    requires
        0 <= left < nodes.len() < usize::MAX,
        inserted_shape(nodes, left, after),
        is_ring_order(nodes, order),
        0 <= k < order.len(),
        order[k] == left,
    ensures
        forall|j: int|
            0 <= j < order.len() + 1 ==> (#[trigger] grown_order(
                order,
                k,
                nodes.len() as usize,
            )[j]) < after.len() && after[grown_order(order, k, nodes.len() as usize)[j] as int].right_index
                == grown_order(order, k, nodes.len() as usize)[next_place(
                j,
                order.len() as int + 1,
            )],
{
    let n = nodes.len() as int;
    let grown = grown_order(order, k, n as usize);
    assert forall|j: int| 0 <= j < n + 1 implies (#[trigger] grown[j]) < after.len()
        && after[grown[j] as int].right_index == grown[next_place(j, n + 1)] by {
        if j <= k {
            assert(order[j] < n);
            assert(after[order[j] as int].point == nodes[order[j] as int].point);
            if j < k {
                assert(order[j] != order[k]);
            }
        } else if j == k + 1 {
            assert(order[k] < n);
        } else {
            assert(order[j - 1] < n);
            assert(after[order[j - 1] as int].point == nodes[order[j - 1] as int].point);
            assert(order[j - 1] != order[k]);
        }
    }
}

proof fn lemma_insert_keeps_order(
    nodes: Seq<Node>,
    left: int,
    after: Seq<Node>,
    order: Seq<usize>,
    k: int,
)
    requires
        0 <= left < nodes.len() < usize::MAX,
        inserted_shape(nodes, left, after),
        is_ring_order(nodes, order),
        0 <= k < order.len(),
        order[k] == left,
    ensures
        is_ring_order(after, grown_order(order, k, nodes.len() as usize)),
{
    lemma_grown_order_lists_all(nodes, order, k);
    lemma_grown_order_follows_links(nodes, left, after, order, k);
}

/// Subdividing an edge of a ring gives a ring: one cycle through all the
/// nodes, the new one included, with left and right still undoing each
/// other.
pub proof fn lemma_insert_keeps_ring(nodes: Seq<Node>, left: int)
    requires
        is_ring(nodes),
        0 <= left < nodes.len() < usize::MAX,
    ensures
        is_ring(insert_node_spec(nodes, left)),
{
    let after = insert_node_spec(nodes, left);
    lemma_insert_shape(nodes, left);
    lemma_insert_keeps_links_mutual(nodes, left, after);
    let order = choose|order: Seq<usize>| is_ring_order(nodes, order);
    assert(order.contains(left as usize));
    let k = choose|k: int| 0 <= k < order.len() && order[k] == left as usize;
    lemma_insert_keeps_order(nodes, left, after, order, k);
}

/// The largest size of a coordinate, and of one step's random offset, for
/// which a relaxation pass is known to stay within `i32`.
pub const COORDINATE_LIMIT: i32 = 0x0800_0000;

/// What steers a relaxation pass.
#[derive(Clone, Copy, Debug, PartialEq, Eq, Structural)]
pub struct Config {
    /// An edge whose squared length exceeds this is subdivided.
    pub neighbor_radius_squared: i128,
    /// Nodes nearer than this, squared, push each other away.
    pub search_radius_squared: i128,
    /// A node moves this fraction of the way to its neighbors' midpoint.
    pub drag_attract: i32,
    /// A node moves this fraction of the mean offset from its neighbors.
    pub drag_reject: i32,
}

impl Config {
    /// Both divisors are positive.
    pub open spec fn wf(self) -> bool {
        self.drag_attract >= 1 && self.drag_reject >= 1
    }
}

/// Both coordinates are at most `limit` in size.
pub open spec fn within(p: Point, limit: int) -> bool {
    -limit <= p.x <= limit && -limit <= p.y <= limit
}

/// Every node lies within `limit` of the origin on both axes.
pub open spec fn all_within(nodes: Seq<Node>, limit: int) -> bool {
    forall|i: int| 0 <= i < nodes.len() ==> within((#[trigger] nodes[i]).point, limit)
}

/// Where the nodes are, in arena order.
pub open spec fn node_points(nodes: Seq<Node>) -> Seq<Point> {
    Seq::new(nodes.len(), |i: int| nodes[i].point)
}

/// The nodes with the same links, each moved by its offset.
pub open spec fn moved(nodes: Seq<Node>, offsets: Seq<Point>) -> Seq<Node> {
    Seq::new(
        nodes.len(),
        |i: int|
            Node {
                point: Point {
                    x: (nodes[i].point.x + offsets[i].x) as i32,
                    y: (nodes[i].point.y + offsets[i].y) as i32,
                },
                ..nodes[i]
            },
    )
}

/// The edge from node `i` to its right neighbor is longer than the
/// threshold allows.
pub open spec fn edge_is_long(nodes: Seq<Node>, i: int, threshold: i128) -> bool {
    threshold < squared_distance_spec(nodes[i].point, nodes[nodes[i].right_index as int].point)
}

/// The first node at or after `from` whose right edge is long.
pub open spec fn first_long_edge(nodes: Seq<Node>, threshold: i128, from: int) -> Option<int>
    decreases nodes.len() - from,
{
    if from < 0 || from >= nodes.len() {
        None
    } else if edge_is_long(nodes, from, threshold) {
        Some(from)
    } else {
        first_long_edge(nodes, threshold, from + 1)
    }
}

/// The ring after its first long edge, if it has one, has been subdivided.
pub open spec fn grown(nodes: Seq<Node>, threshold: i128) -> Seq<Node> {
    match first_long_edge(nodes, threshold, 0) {
        Some(i) => insert_node_spec(nodes, i),
        None => nodes,
    }
}

/// How far `q` lies to the right of a point.
pub open spec fn x_offset(q: Point) -> spec_fn(Point) -> int {
    |p: Point| q.x - p.x
}

/// How far `q` lies above a point.
pub open spec fn y_offset(q: Point) -> spec_fn(Point) -> int {
    |p: Point| q.y - p.y
}

/// A coordinate pulled toward the mean of two others by one part in `drag`.
pub open spec fn attracted(p: int, l: int, r: int, drag: int) -> int {
    p + div_toward_zero(div_toward_zero(l + r, 2) - p, drag)
}

/// The push that `count` neighbors with summed offset `sum` give: one part
/// in `drag` of their mean offset, and nothing where there is no neighbor.
pub open spec fn repelled(sum: int, count: int, drag: int) -> int {
    if count == 0 {
        0
    } else {
        div_toward_zero(div_toward_zero(sum, count), drag)
    }
}

/// Where node `i` goes in one pass: toward the midpoint of its two ring
/// neighbors, and away from the nodes that lie within the search radius of
/// it, all read from the positions before the pass.
pub open spec fn next_point(nodes: Seq<Node>, i: int, config: Config) -> Point {
    let p = nodes[i].point;
    let l = nodes[nodes[i].left_index as int].point;
    let r = nodes[nodes[i].right_index as int].point;
    let points = node_points(nodes);
    let near = config.search_radius_squared;
    let count = total(points, neighbor_weight(p, near, unit_weight()));
    let sum_x = total(points, neighbor_weight(p, near, x_offset(p)));
    let sum_y = total(points, neighbor_weight(p, near, y_offset(p)));
    Point {
        x: (attracted(p.x as int, l.x as int, r.x as int, config.drag_attract as int) + repelled(
            sum_x,
            count,
            config.drag_reject as int,
        )) as i32,
        y: (attracted(p.y as int, l.y as int, r.y as int, config.drag_attract as int) + repelled(
            sum_y,
            count,
            config.drag_reject as int,
        )) as i32,
    }
}

/// The nodes with the same links, each at its next place.
pub open spec fn relaxed(nodes: Seq<Node>, config: Config) -> Seq<Node> {
    Seq::new(nodes.len(), |i: int| Node { point: next_point(nodes, i, config), ..nodes[i] })
}

/// One whole step: move every node by its offset, subdivide the first long
/// edge, then relax all nodes at once.
pub open spec fn step_spec(nodes: Seq<Node>, offsets: Seq<Point>, config: Config) -> Seq<Node> {
    relaxed(grown(moved(nodes, offsets), config.neighbor_radius_squared), config)
}

/// Being a ring is a matter of the links alone.
pub proof fn lemma_ring_by_links(a: Seq<Node>, b: Seq<Node>)
    requires
        is_ring(a),
        a.len() == b.len(),
        forall|i: int|
            0 <= i < a.len() ==> (#[trigger] b[i]).left_index == a[i].left_index
                && b[i].right_index == a[i].right_index,
    ensures
        is_ring(b),
{
    let order = choose|order: Seq<usize>| is_ring_order(a, order);
    assert(links_mutual(b)) by {
        assert forall|i: int| 0 <= i < b.len() implies (#[trigger] b[i]).left_index < b.len()
            && b[i].right_index < b.len() && b[b[i].right_index as int].left_index == i
            && b[b[i].left_index as int].right_index == i by {
            assert(a[i].left_index < a.len());
            assert(a[a[i].right_index as int].left_index == i);
            assert(a[a[i].left_index as int].right_index == i);
            assert(b[a[i].right_index as int].left_index == a[a[i].right_index as int].left_index);
            assert(b[a[i].left_index as int].right_index == a[a[i].left_index as int].right_index);
        }
    }
    assert(is_ring_order(b, order)) by {
        assert forall|k: int| 0 <= k < order.len() implies (#[trigger] order[k]) < b.len()
            && b[order[k] as int].right_index == order[next_place(k, order.len() as int)] by {
            assert(b[order[k] as int].right_index == a[order[k] as int].right_index);
        }
    }
}

/// Moves every node by its offset.
fn move_nodes(nodes: &mut Vec<Node>, offsets: &Vec<Point>)
    requires
        offsets.len() == old(nodes).len(),
        all_within(old(nodes)@, COORDINATE_LIMIT as int),
        forall|i: int| 0 <= i < offsets.len() ==> within(#[trigger] offsets[i], COORDINATE_LIMIT as int),
    ensures
        final(nodes)@ == moved(old(nodes)@, offsets@),
        all_within(final(nodes)@, 2 * COORDINATE_LIMIT),
{
    let n: usize = nodes.len();
    let mut i: usize = 0;
    while i < n
        invariant
            n == nodes.len(),
            n == old(nodes).len(),
            n == offsets.len(),
            i <= n,
            all_within(old(nodes)@, COORDINATE_LIMIT as int),
            forall|k: int| 0 <= k < offsets.len() ==> within(#[trigger] offsets[k], COORDINATE_LIMIT as int),
            forall|k: int| 0 <= k < i ==> nodes@[k] == moved(old(nodes)@, offsets@)[k],
            forall|k: int| i <= k < n ==> nodes@[k] == old(nodes)@[k],
        decreases n - i,
    {
        let node: Node = nodes[i];
        let offset: Point = offsets[i];
        assert(within(old(nodes)@[i as int].point, COORDINATE_LIMIT as int));
        assert(within(offsets[i as int], COORDINATE_LIMIT as int));
        let point = Point { x: node.point.x + offset.x, y: node.point.y + offset.y };
        nodes.set(i, Node { point, ..node });
        i += 1;
    }
    proof {
        assert(nodes@ =~= moved(old(nodes)@, offsets@));
        assert forall|k: int| 0 <= k < nodes@.len() implies within(
            (#[trigger] nodes@[k]).point,
            2 * COORDINATE_LIMIT,
        ) by {
            assert(within(old(nodes)@[k].point, COORDINATE_LIMIT as int));
            assert(within(offsets[k], COORDINATE_LIMIT as int));
        }
    }
}

/// Finds the first node whose right edge is longer than the threshold.
fn find_long_edge(nodes: &Vec<Node>, threshold: i128) -> (found: Option<usize>)
    requires
        links_in_range(nodes@),
    ensures
        found matches Some(i) ==> i < nodes.len() && first_long_edge(nodes@, threshold, 0) == Some(
            i as int,
        ),
        found is None ==> first_long_edge(nodes@, threshold, 0) is None,
{
    let n: usize = nodes.len();
    let mut i: usize = 0;
    while i < n
        invariant
            n == nodes.len(),
            i <= n,
            links_in_range(nodes@),
            first_long_edge(nodes@, threshold, 0) == first_long_edge(nodes@, threshold, i as int),
        decreases n - i,
    {
        let node: &Node = &nodes[i];
        assert(nodes@[i as int].right_index < nodes.len());
        if threshold < squared_distance(&node.point, &nodes[node.right_index].point) {
            return Some(i);
        }
        i += 1;
    }
    None
}

/// Copies out where the nodes are.
fn points_of(nodes: &Vec<Node>) -> (points: Vec<Point>)
    ensures
        points@ == node_points(nodes@),
{
    let mut points: Vec<Point> = Vec::new();
    let mut i: usize = 0;
    while i < nodes.len()
        invariant
            i <= nodes.len(),
            points@ == node_points(nodes@).subrange(0, i as int),
        decreases nodes.len() - i,
    {
        points.push(nodes[i].point);
        i += 1;
        assert(points@ =~= node_points(nodes@).subrange(0, i as int));
    }
    assert(points@ =~= node_points(nodes@));
    points
}

/// Counts the neighbors of `p` among the points of a k-d tree and sums
/// their offsets from `p`, by a search of the tree.
fn repulsion(
    p: &Point,
    trees: &Vec<Tree>,
    root: usize,
    radius_squared: i128,
    neighbors: &mut ArrayVec<usize, 512>,
) -> (r: (usize, i64, i64))
    requires
        is_kd_tree(trees@, root as int),
        subtree_size(trees@, root as int) <= CAPACITY,
    ensures
        r.0 == total(
            subtree_points(trees@, root as int),
            neighbor_weight(*p, radius_squared, unit_weight()),
        ),
        r.1 == total(
            subtree_points(trees@, root as int),
            neighbor_weight(*p, radius_squared, x_offset(*p)),
        ),
        r.2 == total(
            subtree_points(trees@, root as int),
            neighbor_weight(*p, radius_squared, y_offset(*p)),
        ),
{
    list_clear(neighbors);
    search_trees(p, trees, root, radius_squared, neighbors);
    let count: usize = list_len(neighbors);
    let arena: usize = trees.len();
    let ghost found = items(*neighbors);
    let ghost wx = node_weight(trees@, x_offset(*p));
    let ghost wy = node_weight(trees@, y_offset(*p));
    let ghost w1 = node_weight(trees@, unit_weight());
    proof {
        assert(found =~= visited(trees@, root as int, *p, radius_squared));
        lemma_visited_in_range(trees@, root as int, *p, radius_squared);
    }
    let mut sum_x: i64 = 0;
    let mut sum_y: i64 = 0;
    let mut k: usize = 0;
    while k < count
        invariant
            k <= count,
            count == found.len(),
            count <= CAPACITY,
            found == items(*neighbors),
            arena == trees.len(),
            wx == node_weight(trees@, x_offset(*p)),
            wy == node_weight(trees@, y_offset(*p)),
            w1 == node_weight(trees@, unit_weight()),
            forall|j: int| 0 <= j < found.len() ==> (#[trigger] found[j]) < trees.len(),
            sum_x == total(found.subrange(0, k as int), wx),
            sum_y == total(found.subrange(0, k as int), wy),
            k == total(found.subrange(0, k as int), w1),
            -(k * 0x1_0000_0000) <= sum_x <= k * 0x1_0000_0000,
            -(k * 0x1_0000_0000) <= sum_y <= k * 0x1_0000_0000,
        decreases count - k,
    {
        let j: usize = list_get(neighbors, k);
        assert(found[k as int] < trees.len());
        let q: Point = trees[j].point;
        proof {
            let more = found.subrange(0, k + 1);
            assert(more.drop_last() =~= found.subrange(0, k as int));
            assert(more.last() == j);
            assert(wx(j) == p.x - q.x);
            assert(wy(j) == p.y - q.y);
            assert(w1(j) == 1);
        }
        sum_x = sum_x + (p.x as i64 - q.x as i64);
        sum_y = sum_y + (p.y as i64 - q.y as i64);
        k += 1;
    }
    proof {
        assert(found.subrange(0, k as int) =~= found);
        lemma_search_weighs_neighbors(trees@, root as int, *p, radius_squared, x_offset(*p));
        lemma_search_weighs_neighbors(trees@, root as int, *p, radius_squared, y_offset(*p));
        lemma_search_weighs_neighbors(trees@, root as int, *p, radius_squared, unit_weight());
    }
    (count, sum_x, sum_y)
}

/// One coordinate of a node's next place.
fn next_coordinate(p: i32, l: i32, r: i32, sum: i64, count: usize, config: &Config) -> (c: i32)
    requires
        config.wf(),
        -2 * COORDINATE_LIMIT <= p <= 2 * COORDINATE_LIMIT,
        -2 * COORDINATE_LIMIT <= l <= 2 * COORDINATE_LIMIT,
        -2 * COORDINATE_LIMIT <= r <= 2 * COORDINATE_LIMIT,
        count <= CAPACITY,
        -4 * COORDINATE_LIMIT * count <= sum <= 4 * COORDINATE_LIMIT * count,
    ensures
        c == attracted(p as int, l as int, r as int, config.drag_attract as int) + repelled(
            sum as int,
            count as int,
            config.drag_reject as int,
        ),
{
    let middle: i64 = (l as i64 + r as i64) / 2;
    let pull: i64 = (middle - p as i64) / (config.drag_attract as i64);
    proof {
        lemma_div_toward_zero_bounds(middle - p, config.drag_attract as int);
    }
    let push: i64 = if count != 0 {
        let mean: i64 = sum / (count as i64);
        proof {
            lemma_mean_bounds(
                sum as int,
                count as int,
                -4 * COORDINATE_LIMIT,
                4 * COORDINATE_LIMIT,
            );
            lemma_div_toward_zero_bounds(mean as int, config.drag_reject as int);
        }
        mean / (config.drag_reject as i64)
    } else {
        0
    };
    (p as i64 + pull + push) as i32
}

/// Computes every node's next place from the present places.
fn next_points(nodes: &Vec<Node>, config: &Config) -> (next: Vec<Point>)
    requires
        config.wf(),
        links_in_range(nodes@),
        0 < nodes.len() <= CAPACITY,
        all_within(nodes@, 2 * COORDINATE_LIMIT),
    ensures
        next.len() == nodes.len(),
        forall|i: int| 0 <= i < nodes.len() ==> #[trigger] next[i] == next_point(nodes@, i, *config),
{
    let n: usize = nodes.len();
    let mut points: Vec<Point> = points_of(nodes);
    let ghost placed = points@;
    let bounds = bounding_box(&points).unwrap();
    let mut trees: Vec<Tree> = Vec::new();
    let root: usize = make_tree(&mut trees, &mut points, true, bounds).unwrap();
    let mut neighbors: ArrayVec<usize, 512> = list_new();
    let mut next: Vec<Point> = Vec::new();
    let near: i128 = config.search_radius_squared;
    let mut i: usize = 0;
    while i < n
        invariant
            config.wf(),
            near == config.search_radius_squared,
            links_in_range(nodes@),
            n == nodes.len(),
            0 < n <= CAPACITY,
            all_within(nodes@, 2 * COORDINATE_LIMIT),
            placed == node_points(nodes@),
            is_kd_tree(trees@, root as int),
            subtree_size(trees@, root as int) == n,
            subtree_points(trees@, root as int).to_multiset() == placed.to_multiset(),
            i <= n,
            next.len() == i,
            forall|k: int| 0 <= k < i ==> #[trigger] next[k] == next_point(nodes@, k, *config),
        decreases n - i,
    {
        let node: Node = nodes[i];
        let p: Point = node.point;
        assert(nodes@[i as int].left_index < n && nodes@[i as int].right_index < n);
        let l: Point = nodes[node.left_index].point;
        let r: Point = nodes[node.right_index].point;
        let (count, sum_x, sum_y) = repulsion(&p, &trees, root, near, &mut neighbors);
        proof {
            let tree_points = subtree_points(trees@, root as int);
            let w1 = neighbor_weight(p, near, unit_weight());
            let wx = neighbor_weight(p, near, x_offset(p));
            let wy = neighbor_weight(p, near, y_offset(p));
            lemma_total_permutation(tree_points, placed, w1);
            lemma_total_permutation(tree_points, placed, wx);
            lemma_total_permutation(tree_points, placed, wy);
            assert(within(nodes@[i as int].point, 2 * COORDINATE_LIMIT));
            assert(within(nodes@[node.left_index as int].point, 2 * COORDINATE_LIMIT));
            assert(within(nodes@[node.right_index as int].point, 2 * COORDINATE_LIMIT));
            let lo: int = -4 * COORDINATE_LIMIT;
            let hi: int = 4 * COORDINATE_LIMIT;
            assert forall|k: int| 0 <= k < placed.len() implies lo * #[trigger] w1(placed[k])
                <= wx(placed[k]) <= hi * w1(placed[k]) && lo * w1(placed[k]) <= wy(placed[k]) <= hi
                * w1(placed[k]) by {
                assert(within(nodes@[k].point, 2 * COORDINATE_LIMIT));
                assert(w1(placed[k]) == 0 || w1(placed[k]) == 1);
            }
            lemma_total_scaled(placed, wx, w1, lo, hi);
            lemma_total_scaled(placed, wy, w1, lo, hi);
            lemma_total_bounds(placed, w1, 0, 1);
        }
        let x: i32 = next_coordinate(p.x, l.x, r.x, sum_x, count, config);
        let y: i32 = next_coordinate(p.y, l.y, r.y, sum_y, count, config);
        next.push(Point { x, y });
        i += 1;
    }
    next
}

/// Puts every node at its next place.
fn commit_points(nodes: &mut Vec<Node>, next: &Vec<Point>)
    requires
        next.len() == old(nodes).len(),
    ensures
        final(nodes)@.len() == old(nodes)@.len(),
        forall|i: int|
            0 <= i < old(nodes)@.len() ==> #[trigger] final(nodes)@[i] == (Node {
                point: next[i],
                ..old(nodes)@[i]
            }),
{
    let n: usize = nodes.len();
    let mut i: usize = 0;
    while i < n
        invariant
            n == nodes.len(),
            n == old(nodes).len(),
            n == next.len(),
            i <= n,
            forall|k: int|
                0 <= k < i ==> #[trigger] nodes@[k] == (Node { point: next[k], ..old(nodes)@[k] }),
            forall|k: int| i <= k < n ==> nodes@[k] == old(nodes)@[k],
        decreases n - i,
    {
        let node: Node = nodes[i];
        nodes.set(i, Node { point: next[i], ..node });
        i += 1;
    }
}

/// Subdivides the first edge that is longer than the threshold, if any.
fn grow_nodes(nodes: &mut Vec<Node>, threshold: i128)
    requires
        links_in_range(old(nodes)@),
        all_within(old(nodes)@, 2 * COORDINATE_LIMIT),
    ensures
        final(nodes)@ == grown(old(nodes)@, threshold),
        old(nodes)@.len() <= final(nodes)@.len() <= old(nodes)@.len() + 1,
        links_in_range(final(nodes)@),
        all_within(final(nodes)@, 2 * COORDINATE_LIMIT),
        is_ring(old(nodes)@) ==> is_ring(final(nodes)@),
{
    match find_long_edge(nodes, threshold) {
        Some(i) => {
            insert_node(nodes, i);
            proof {
                let before = old(nodes)@;
                let right = before[i as int].right_index as int;
                assert(within(before[i as int].point, 2 * COORDINATE_LIMIT));
                assert(within(before[right].point, 2 * COORDINATE_LIMIT));
                assert forall|k: int| 0 <= k < nodes@.len() implies within(
                    (#[trigger] nodes@[k]).point,
                    2 * COORDINATE_LIMIT,
                ) by {
                    if k < before.len() {
                        assert(within(before[k].point, 2 * COORDINATE_LIMIT));
                    }
                }
            }
        },
        None => {},
    }
}

/// Relaxes all nodes at once.
fn settle_nodes(nodes: &mut Vec<Node>, config: &Config)
    requires
        config.wf(),
        links_in_range(old(nodes)@),
        old(nodes).len() <= CAPACITY,
        all_within(old(nodes)@, 2 * COORDINATE_LIMIT),
    ensures
        final(nodes)@ == relaxed(old(nodes)@, *config),
        links_in_range(final(nodes)@),
        is_ring(old(nodes)@) ==> is_ring(final(nodes)@),
{
    if nodes.len() > 0 {
        let next: Vec<Point> = next_points(nodes, config);
        commit_points(nodes, &next);
    }
    proof {
        let before = old(nodes)@;
        assert(nodes@ =~= relaxed(before, *config));
        assert(links_in_range(nodes@)) by {
            assert forall|i: int| 0 <= i < nodes@.len() implies (#[trigger] nodes@[i]).left_index
                < nodes@.len() && nodes@[i].right_index < nodes@.len() by {
                assert(before[i].left_index < before.len());
            }
        }
        if is_ring(before) {
            lemma_ring_by_links(before, nodes@);
        }
    }
}

/// One whole step of the ring under given offsets: every node is moved by
/// its offset, the first edge that has become too long is subdivided, and
/// then all nodes are relaxed at once from the places they then have.
pub fn relax_nodes(nodes: &mut Vec<Node>, offsets: &Vec<Point>, config: &Config)
    requires
        config.wf(),
        offsets.len() == old(nodes).len(),
        old(nodes).len() < CAPACITY,
        links_in_range(old(nodes)@),
        all_within(old(nodes)@, COORDINATE_LIMIT as int),
        forall|i: int|
            0 <= i < offsets.len() ==> within(#[trigger] offsets[i], COORDINATE_LIMIT as int),
    ensures
        final(nodes)@ == step_spec(old(nodes)@, offsets@, *config),
        old(nodes)@.len() <= final(nodes)@.len() <= old(nodes)@.len() + 1,
        links_in_range(final(nodes)@),
        is_ring(old(nodes)@) ==> is_ring(final(nodes)@),
{
    move_nodes(nodes, offsets);
    proof {
        let shifted = nodes@;
        assert(links_in_range(shifted)) by {
            assert forall|i: int| 0 <= i < shifted.len() implies (#[trigger] shifted[i]).left_index
                < shifted.len() && shifted[i].right_index < shifted.len() by {
                assert(old(nodes)@[i].left_index < shifted.len());
            }
        }
        if is_ring(old(nodes)@) {
            lemma_ring_by_links(old(nodes)@, shifted);
        }
    }
    grow_nodes(nodes, config.neighbor_radius_squared);
    settle_nodes(nodes, config);
}

/// One whole step of the ring under offsets drawn from `walk_lower` up to
/// but not including `walk_upper`: see `relax_nodes`.
pub fn update_nodes(
    rng: &mut ThreadRng,
    walk_lower: i32,
    walk_upper: i32,
    nodes: &mut Vec<Node>,
    config: &Config,
)
    requires
        config.wf(),
        -COORDINATE_LIMIT <= walk_lower < walk_upper <= COORDINATE_LIMIT + 1,
        old(nodes).len() < CAPACITY,
        links_in_range(old(nodes)@),
        all_within(old(nodes)@, COORDINATE_LIMIT as int),
    ensures
        exists|offsets: Seq<Point>|
            offsets.len() == old(nodes)@.len() && points_between(
                offsets,
                walk_lower as int,
                walk_upper as int,
            ) && final(nodes)@ == step_spec(old(nodes)@, offsets, *config),
        old(nodes)@.len() <= final(nodes)@.len() <= old(nodes)@.len() + 1,
        links_in_range(final(nodes)@),
        is_ring(old(nodes)@) ==> is_ring(final(nodes)@),
{
    let n: usize = nodes.len();
    let mut offsets: Vec<Point> = Vec::new();
    let mut i: usize = 0;
    while i < n
        invariant
            walk_lower < walk_upper,
            i <= n,
            offsets.len() == i,
            points_between(offsets@, walk_lower as int, walk_upper as int),
        decreases n - i,
    {
        let x: i32 = sample_between(rng, walk_lower, walk_upper);
        let y: i32 = sample_between(rng, walk_lower, walk_upper);
        offsets.push(Point { x, y });
        i += 1;
    }
    relax_nodes(nodes, &offsets, config);
}

/// Whether a relaxation pass may run on these nodes: every link names a
/// node, and no coordinate exceeds the limit.
pub fn can_relax(nodes: &Vec<Node>) -> (ok: bool)
    ensures
        ok == (links_in_range(nodes@) && all_within(nodes@, COORDINATE_LIMIT as int)),
{
    let n: usize = nodes.len();
    let mut i: usize = 0;
    while i < n
        invariant
            n == nodes.len(),
            i <= n,
            forall|k: int|
                0 <= k < i ==> (#[trigger] nodes@[k]).left_index < n && nodes@[k].right_index < n
                    && within(nodes@[k].point, COORDINATE_LIMIT as int),
        decreases n - i,
    {
        let node: &Node = &nodes[i];
        if node.left_index >= n || node.right_index >= n || node.point.x < -COORDINATE_LIMIT
            || node.point.x > COORDINATE_LIMIT || node.point.y < -COORDINATE_LIMIT || node.point.y
            > COORDINATE_LIMIT {
            return false;
        }
        i += 1;
    }
    true
}

/// The ring must be started afresh before it can take another step: it has
/// outgrown `capacity_limit`, or a relaxation pass may not run on it.
pub open spec fn must_reset(nodes: Seq<Node>, capacity_limit: usize) -> bool {
    ||| nodes.len() > capacity_limit
    ||| !links_in_range(nodes)
    ||| !all_within(nodes, COORDINATE_LIMIT as int)
}

/// What the next frame does to a ring.
#[derive(Clone, Copy, Debug, PartialEq, Eq, Structural)]
pub enum Phase {
    /// The ring takes one step.
    Growing,
    /// The ring is started afresh.
    Reset,
}

/// Tells what the next frame does to the ring.
pub fn phase(nodes: &Vec<Node>, capacity_limit: usize) -> (p: Phase)
    ensures
        p == (if must_reset(nodes@, capacity_limit) {
            Phase::Reset
        } else {
            Phase::Growing
        }),
{
    if nodes.len() > capacity_limit || !can_relax(nodes) {
        Phase::Reset
    } else {
        Phase::Growing
    }
}

/// One frame of the growing ring. A ring that must be reset is replaced by
/// a fresh one with coordinates from `init_lower` up to but not including
/// `init_upper`; any other takes one step under offsets from `walk_lower`
/// up to but not including `walk_upper`.
pub fn step(
    rng: &mut ThreadRng,
    init_lower: i32,
    init_upper: i32,
    walk_lower: i32,
    walk_upper: i32,
    nodes: &mut Vec<Node>,
    config: &Config,
    capacity_limit: usize,
)
    requires
        config.wf(),
        init_lower < init_upper,
        -COORDINATE_LIMIT <= walk_lower < walk_upper <= COORDINATE_LIMIT + 1,
        capacity_limit < CAPACITY,
    ensures
        links_in_range(final(nodes)@),
        must_reset(old(nodes)@, capacity_limit) ==> {
            &&& final(nodes)@.len() == NODES_INIT
            &&& is_ring(final(nodes)@)
            &&& exists|points: Seq<Point>|
                points_between(points, init_lower as int, init_upper as int) && final(nodes)@
                    == ring_of(points)
        },
        !must_reset(old(nodes)@, capacity_limit) ==> {
            &&& exists|offsets: Seq<Point>|
                offsets.len() == old(nodes)@.len() && points_between(
                    offsets,
                    walk_lower as int,
                    walk_upper as int,
                ) && final(nodes)@ == step_spec(old(nodes)@, offsets, *config)
            &&& is_ring(old(nodes)@) ==> is_ring(final(nodes)@)
        },
{
    match phase(nodes, capacity_limit) {
        Phase::Reset => init_nodes(rng, init_lower, init_upper, nodes),
        Phase::Growing => update_nodes(rng, walk_lower, walk_upper, nodes, config),
    }
}

} // verus!

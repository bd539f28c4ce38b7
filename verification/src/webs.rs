//! A web: a graph in the plane that grows by chords. A chord is laid across
//! the web, the edges it crosses are split where it crosses them, and the
//! new nodes are joined along it.

use crate::point::{
    div_toward_zero, intersection, intersection_spec, lemma_div_toward_zero_bounds,
    lemma_mean_bounds, point_between, squared_distance, squared_distance_spec,
};
pub use crate::point::Point;
use crate::random::sample_between;
use crate::sums::{lemma_total_scaled, total};
use rand::rngs::ThreadRng;
use vstd::prelude::*;

verus! {

/// One node of the web: where it is, and the nodes it shares an edge with.
#[derive(Debug)]
pub struct Node {
    pub point: Point,
    pub neighbors: Vec<usize>,
}

/// What a node holds, as plain values.
pub struct NodeView {
    pub point: Point,
    pub neighbors: Seq<usize>,
}

impl View for Node {
    type V = NodeView;

    open spec fn view(&self) -> NodeView {
        NodeView { point: self.point, neighbors: self.neighbors@ }
    }
}

/// An edge between two nodes of the web.
#[derive(Clone, Copy, Debug, PartialEq, Eq, Structural)]
pub struct Edge {
    pub a: usize,
    pub b: usize,
}

/// The most neighbors a node of the web ever has.
pub const NEIGHBORS_CAP: usize = 3;

/// The number of nodes that a fresh web starts with, which never move.
pub const NODES_INIT: usize = 2;

/// What the nodes of an arena hold, in arena order.
pub open spec fn views(nodes: Seq<Node>) -> Seq<NodeView> {
    Seq::new(nodes.len(), |i: int| nodes[i]@)
}

/// The edge joins `u` and `v`, in either direction.
pub open spec fn joins(edge: Edge, u: usize, v: usize) -> bool {
    (edge.a == u && edge.b == v) || (edge.a == v && edge.b == u)
}

/// Some edge joins `u` and `v`.
pub open spec fn joined(edges: Seq<Edge>, u: usize, v: usize) -> bool {
    exists|e: int| 0 <= e < edges.len() && joins(#[trigger] edges[e], u, v)
}

/// Nodes and edges fit together: every edge joins two different nodes of
/// the arena that list each other as neighbors, and no two edges join the
/// same pair; every node lists each of its neighbors once, no more than
/// `NEIGHBORS_CAP` of them, and only nodes that an edge joins it to.
pub open spec fn is_web(nodes: Seq<NodeView>, edges: Seq<Edge>) -> bool {
    &&& nodes.len() <= usize::MAX
    &&& forall|e: int|
        0 <= e < edges.len() ==> {
            &&& (#[trigger] edges[e]).a < nodes.len()
            &&& edges[e].b < nodes.len()
            &&& edges[e].a != edges[e].b
            &&& nodes[edges[e].a as int].neighbors.contains(edges[e].b)
            &&& nodes[edges[e].b as int].neighbors.contains(edges[e].a)
        }
    &&& forall|e: int, f: int|
        0 <= e < edges.len() && 0 <= f < edges.len() && e != f ==> !joins(
            #[trigger] edges[e],
            (#[trigger] edges[f]).a,
            edges[f].b,
        )
    &&& forall|i: int|
        0 <= i < nodes.len() ==> (#[trigger] nodes[i]).neighbors.len() <= NEIGHBORS_CAP
            && nodes[i].neighbors.no_duplicates()
    &&& forall|i: int, k: int|
        0 <= i < nodes.len() && 0 <= k < nodes[i].neighbors.len() ==> (#[trigger] nodes[i].neighbors[k])
            < nodes.len() && joined(edges, i as usize, nodes[i].neighbors[k])
}

/// `s` with its first `old_item`, if it has one, replaced by `new_item`.
pub open spec fn replaced_first(s: Seq<usize>, old_item: usize, new_item: usize) -> Seq<usize>
    decreases s.len(),
{
    if s.len() == 0 {
        s
    } else if s[0] == old_item {
        s.update(0, new_item)
    } else {
        seq![s[0]] + replaced_first(s.drop_first(), old_item, new_item)
    }
}

/// Replacing the first `old_item` changes the place where it first stands,
/// and nothing where there is none.
pub proof fn lemma_replaced_first(s: Seq<usize>, old_item: usize, new_item: usize)
    ensures
        !s.contains(old_item) ==> replaced_first(s, old_item, new_item) == s,
        s.contains(old_item) ==> exists|k: int|
            0 <= k < s.len() && s[k] == old_item && (forall|j: int| 0 <= j < k ==> s[j] != old_item)
                && #[trigger] s.update(k, new_item) == replaced_first(s, old_item, new_item),
    decreases s.len(),
{
    let r = replaced_first(s, old_item, new_item);
    if s.len() == 0 {
    } else if s[0] == old_item {
        assert(s.update(0, new_item) == r);
    } else {
        let t = s.drop_first();
        let rt = replaced_first(t, old_item, new_item);
        lemma_replaced_first(t, old_item, new_item);
        if s.contains(old_item) {
            let at = choose|k: int| 0 <= k < s.len() && s[k] == old_item;
            assert(t[at - 1] == old_item);
            let k = choose|k: int|
                0 <= k < t.len() && t[k] == old_item && (forall|j: int|
                    0 <= j < k ==> t[j] != old_item) && #[trigger] t.update(k, new_item) == rt;
            assert(s[k + 1] == t[k]);
            assert forall|j: int| 0 <= j < k + 1 implies s[j] != old_item by {
                if j > 0 {
                    assert(s[j] == t[j - 1]);
                }
            }
            assert(s.update(k + 1, new_item) =~= seq![s[0]] + t.update(k, new_item));
        } else {
            if t.contains(old_item) {
                let k = choose|k: int| 0 <= k < t.len() && t[k] == old_item;
                assert(s[k + 1] == old_item);
            }
            assert(seq![s[0]] + t =~= s);
        }
    }
}

/// What replacing the first `old_item` by an item that is new to a list
/// without repeats gives: a list without repeats that holds the new item,
/// if it held the old one, in place of the old item, and every other item
/// as before.
pub proof fn lemma_replaced_in_set(s: Seq<usize>, old_item: usize, new_item: usize)
    requires
        s.no_duplicates(),
        !s.contains(new_item),
        old_item != new_item,
    ensures
        replaced_first(s, old_item, new_item).len() == s.len(),
        replaced_first(s, old_item, new_item).no_duplicates(),
        !replaced_first(s, old_item, new_item).contains(old_item),
        replaced_first(s, old_item, new_item).contains(new_item) == s.contains(old_item),
        forall|x: usize|
            x != old_item && x != new_item ==> #[trigger] replaced_first(
                s,
                old_item,
                new_item,
            ).contains(x) == s.contains(x),
{
    let r = replaced_first(s, old_item, new_item);
    lemma_replaced_first(s, old_item, new_item);
    if s.contains(old_item) {
        let k = choose|k: int|
            0 <= k < s.len() && s[k] == old_item && (forall|j: int| 0 <= j < k ==> s[j] != old_item)
                && #[trigger] s.update(k, new_item) == r;
        assert(r[k] == new_item);
        assert forall|i: int, j: int| 0 <= i < r.len() && 0 <= j < r.len() && i != j implies r[i]
            != r[j] by {
            if i != k && j != k {
                assert(r[i] == s[i] && r[j] == s[j]);
            } else if i == k {
                assert(r[j] == s[j]);
                assert(s.contains(s[j]));
            } else {
                assert(r[i] == s[i]);
                assert(s.contains(s[i]));
            }
        }
        if r.contains(old_item) {
            let j = choose|j: int| 0 <= j < r.len() && r[j] == old_item;
            assert(j != k);
            assert(s[j] == old_item);
        }
        assert forall|x: usize| x != old_item && x != new_item implies #[trigger] r.contains(x)
            == s.contains(x) by {
            if s.contains(x) {
                let j = choose|j: int| 0 <= j < s.len() && s[j] == x;
                assert(r[j] == x);
            }
            if r.contains(x) {
                let j = choose|j: int| 0 <= j < r.len() && r[j] == x;
                assert(s[j] == x);
            }
        }
    }
}

/// Replaces the first `old_item` among the neighbors of node `i`.
fn replace_neighbor(nodes: &mut Vec<Node>, i: usize, old_item: usize, new_item: usize)
    requires
        i < old(nodes).len(),
    ensures
        final(nodes).len() == old(nodes).len(),
        final(nodes)[i as int]@ == (NodeView {
            point: old(nodes)[i as int].point,
            neighbors: replaced_first(old(nodes)[i as int].neighbors@, old_item, new_item),
        }),
        forall|j: int| 0 <= j < old(nodes).len() && j != i ==> final(nodes)[j] == old(nodes)[j],
{
    let n: usize = nodes[i].neighbors.len();
    let ghost start = nodes[i as int].neighbors@;
    let mut k: usize = 0;
    proof {
        assert(start.subrange(0, n as int) =~= start);
        assert(start.subrange(0, 0) + replaced_first(start, old_item, new_item)
            =~= replaced_first(start, old_item, new_item));
    }
    while k < n
        invariant
            k <= n,
            i < nodes.len(),
            nodes.len() == old(nodes).len(),
            nodes[i as int].neighbors@ == start,
            start == old(nodes)[i as int].neighbors@,
            n == start.len(),
            nodes[i as int].point == old(nodes)[i as int].point,
            forall|j: int| 0 <= j < old(nodes).len() && j != i ==> nodes[j] == old(nodes)[j],
            replaced_first(start, old_item, new_item) == start.subrange(0, k as int)
                + replaced_first(start.subrange(k as int, n as int), old_item, new_item),
        decreases n - k,
    {
        let ghost rest = start.subrange(k as int, n as int);
        if nodes[i].neighbors[k] == old_item {
            nodes[i].neighbors[k] = new_item;
            proof {
                assert(rest[0] == old_item);
                assert(nodes[i as int].neighbors@ =~= start.subrange(0, k as int) + rest.update(
                    0,
                    new_item,
                ));
            }
            return ;
        }
        proof {
            assert(rest[0] == start[k as int]);
            assert(rest.drop_first() =~= start.subrange(k + 1, n as int));
            assert(start.subrange(0, k as int) + (seq![rest[0]] + replaced_first(
                rest.drop_first(),
                old_item,
                new_item,
            )) =~= start.subrange(0, k + 1) + replaced_first(
                start.subrange(k + 1, n as int),
                old_item,
                new_item,
            ));
        }
        k += 1;
    }
    proof {
        assert(start.subrange(n as int, n as int) =~= Seq::<usize>::empty());
        assert(start.subrange(0, n as int) + Seq::<usize>::empty() =~= start);
    }
}

/// The nodes after a node without neighbors has been added at `point`.
pub open spec fn with_node(nodes: Seq<NodeView>, point: Point) -> Seq<NodeView> {
    nodes.push(NodeView { point, neighbors: Seq::empty() })
}

/// The nodes after `edge` has been led through the node `via`: each end of
/// the edge now has `via` where it had the other end, and `via` has the two
/// ends as its neighbors.
pub open spec fn routed_nodes(nodes: Seq<NodeView>, edge: Edge, via: usize) -> Seq<NodeView> {
    let a = edge.a as int;
    let b = edge.b as int;
    let first = nodes.update(
        a,
        NodeView { neighbors: replaced_first(nodes[a].neighbors, edge.b, via), ..nodes[a] },
    );
    let second = first.update(
        b,
        NodeView { neighbors: replaced_first(first[b].neighbors, edge.a, via), ..first[b] },
    );
    second.update(via as int, NodeView { neighbors: seq![edge.a, edge.b], ..second[via as int] })
}

/// The edges after edge `e` has been led through the node `via`: the edge
/// now ends at `via`, and a new last edge runs from `via` to its old end.
pub open spec fn routed_edges(edges: Seq<Edge>, e: int, via: usize) -> Seq<Edge> {
    edges.update(e, Edge { a: edges[e].a, b: via }).push(Edge { a: via, b: edges[e].b })
}

/// The nodes after `p` and `q` have been made neighbors.
pub open spec fn connected_nodes(nodes: Seq<NodeView>, p: usize, q: usize) -> Seq<NodeView> {
    let first = nodes.update(
        p as int,
        NodeView { neighbors: nodes[p as int].neighbors.push(q), ..nodes[p as int] },
    );
    first.update(
        q as int,
        NodeView { neighbors: first[q as int].neighbors.push(p), ..first[q as int] },
    )
}

/// The edges after a new last edge from `p` to `q` has been added.
pub open spec fn connected_edges(edges: Seq<Edge>, p: usize, q: usize) -> Seq<Edge> {
    edges.push(Edge { a: p, b: q })
}

/// Adds a node without neighbors.
fn add_node(nodes: &mut Vec<Node>, point: Point) -> (index: usize)
    ensures
        index == old(nodes).len(),
        final(nodes).len() == old(nodes).len() + 1,
        views(final(nodes)@) == with_node(views(old(nodes)@), point),
{
    let index: usize = nodes.len();
    nodes.push(Node { point, neighbors: Vec::new() });
    assert(views(nodes@) =~= with_node(views(old(nodes)@), point));
    index
}

/// Leads edge `e` through the node `via`, which has no neighbors yet.
fn route_through(nodes: &mut Vec<Node>, edges: &mut Vec<Edge>, e: usize, via: usize)
    requires
        (e < old(edges).len()),
        (via < old(nodes).len()),
        old(edges)[e as int].a < old(nodes).len(),
        old(edges)[e as int].b < old(nodes).len(),
        old(edges)[e as int].a != via,
        old(edges)[e as int].b != via,
        old(nodes)[via as int].neighbors@.len() == 0,
    ensures
        final(nodes).len() == old(nodes).len(),
        views(final(nodes)@) == routed_nodes(views(old(nodes)@), old(edges)[e as int], via),
        final(edges)@ == routed_edges(old(edges)@, e as int, via),
{
    let edge: Edge = edges[e];
    replace_neighbor(nodes, edge.a, edge.b, via);
    replace_neighbor(nodes, edge.b, edge.a, via);
    nodes[via].neighbors.push(edge.a);
    nodes[via].neighbors.push(edge.b);
    edges[e] = Edge { a: edge.a, b: via };
    edges.push(Edge { a: via, b: edge.b });
    proof {
        assert(nodes[via as int].neighbors@ =~= seq![edge.a, edge.b]);
        assert(views(nodes@) =~= routed_nodes(views(old(nodes)@), edge, via));
    }
}

/// Makes `p` and `q` neighbors, joined by a new last edge.
fn connect(nodes: &mut Vec<Node>, edges: &mut Vec<Edge>, p: usize, q: usize)
    requires
        (p < old(nodes).len()),
        (q < old(nodes).len()),
        p != q,
    ensures
        final(nodes).len() == old(nodes).len(),
        views(final(nodes)@) == connected_nodes(views(old(nodes)@), p, q),
        final(edges)@ == connected_edges(old(edges)@, p, q),
{
    nodes[p].neighbors.push(q);
    nodes[q].neighbors.push(p);
    edges.push(Edge { a: p, b: q });
    proof {
        assert(views(nodes@) =~= connected_nodes(views(old(nodes)@), p, q));
    }
}

/// A node without neighbors is at neither end of any edge of a web, and
/// no neighbor of any node.
proof fn lemma_isolated(nodes: Seq<NodeView>, edges: Seq<Edge>, via: usize)
    requires
        is_web(nodes, edges),
        (via < nodes.len()),
        nodes[via as int].neighbors.len() == 0,
    ensures
        forall|f: int| 0 <= f < edges.len() ==> (#[trigger] edges[f]).a != via && edges[f].b != via,
        forall|i: int| 0 <= i < nodes.len() ==> !(#[trigger] nodes[i]).neighbors.contains(via),
{
    assert forall|f: int| 0 <= f < edges.len() implies (#[trigger] edges[f]).a != via
        && edges[f].b != via by {
        assert(nodes[edges[f].a as int].neighbors.contains(edges[f].b));
        assert(nodes[edges[f].b as int].neighbors.contains(edges[f].a));
    }
    assert forall|i: int| 0 <= i < nodes.len() implies !(#[trigger] nodes[i]).neighbors.contains(
        via,
    ) by {
        if nodes[i].neighbors.contains(via) {
            let k = choose|k: int| 0 <= k < nodes[i].neighbors.len() && nodes[i].neighbors[k] == via;
            assert(joined(edges, i as usize, nodes[i].neighbors[k]));
        }
    }
}

/// A web with one more node, which has no neighbors, is a web.
proof fn lemma_with_node_keeps_web(nodes: Seq<NodeView>, edges: Seq<Edge>, point: Point)
    requires
        is_web(nodes, edges),
        nodes.len() < usize::MAX,
    ensures
        is_web(with_node(nodes, point), edges),
{
    let after = with_node(nodes, point);
    assert forall|e: int| 0 <= e < edges.len() implies {
        &&& (#[trigger] edges[e]).a < after.len()
        &&& edges[e].b < after.len()
        &&& edges[e].a != edges[e].b
        &&& after[edges[e].a as int].neighbors.contains(edges[e].b)
        &&& after[edges[e].b as int].neighbors.contains(edges[e].a)
    } by {
        assert(after[edges[e].a as int] == nodes[edges[e].a as int]);
        assert(after[edges[e].b as int] == nodes[edges[e].b as int]);
    }
    assert forall|i: int, k: int|
        0 <= i < after.len() && 0 <= k < after[i].neighbors.len() implies (#[trigger] after[i].neighbors[k])
        < after.len() && joined(edges, i as usize, after[i].neighbors[k]) by {
        assert(after[i] == nodes[i]);
        assert(nodes[i].neighbors[k] < nodes.len());
    }
    assert forall|i: int| 0 <= i < after.len() implies (#[trigger] after[i]).neighbors.len()
        <= NEIGHBORS_CAP && after[i].neighbors.no_duplicates() by {
        if i < nodes.len() {
            assert(after[i] == nodes[i]);
        }
    }
}

/// Leading an edge of a web through a node without neighbors gives a web.
proof fn lemma_route_keeps_web(nodes: Seq<NodeView>, edges: Seq<Edge>, e: int, via: usize)
    requires
        is_web(nodes, edges),
        0 <= e < edges.len(),
        (via < nodes.len()),
        nodes[via as int].neighbors.len() == 0,
    ensures
        is_web(routed_nodes(nodes, edges[e], via), routed_edges(edges, e, via)),
        routed_nodes(nodes, edges[e], via).len() == nodes.len(),
        forall|i: int|
            0 <= i < nodes.len() && i != via ==> (#[trigger] routed_nodes(
                nodes,
                edges[e],
                via,
            )[i]).neighbors.len() == nodes[i].neighbors.len(),
        routed_nodes(nodes, edges[e], via)[via as int].neighbors == seq![edges[e].a, edges[e].b],
        forall|i: int|
            0 <= i < nodes.len() && i != via && i != edges[e].a && i != edges[e].b
                ==> #[trigger] routed_nodes(nodes, edges[e], via)[i] == nodes[i],
{
    let a = edges[e].a;
    let b = edges[e].b;
    let m = edges.len() as int;
    let after = routed_nodes(nodes, edges[e], via);
    let laid = routed_edges(edges, e, via);
    lemma_isolated(nodes, edges, via);
    assert(nodes[a as int].neighbors.contains(b));
    assert(nodes[b as int].neighbors.contains(a));
    assert(a != via && b != via && a != b);
    lemma_replaced_in_set(nodes[a as int].neighbors, b, via);
    lemma_replaced_in_set(nodes[b as int].neighbors, a, via);
    let ra = replaced_first(nodes[a as int].neighbors, b, via);
    let rb = replaced_first(nodes[b as int].neighbors, a, via);
    let rv = seq![a, b];
    assert(after[a as int].neighbors == ra);
    assert(after[b as int].neighbors == rb);
    assert(after[via as int].neighbors == rv);
    assert(rv[0] == a && rv[1] == b);
    assert(laid[e] == Edge { a, b: via });
    assert(laid[m] == Edge { a: via, b });
    assert forall|f: int| 0 <= f < m && f != e implies #[trigger] laid[f] == edges[f] && !joins(
        edges[f],
        a,
        b,
    ) by {
        assert(!joins(edges[e], edges[f].a, edges[f].b));
    }
    assert forall|f: int| 0 <= f < laid.len() implies {
        &&& (#[trigger] laid[f]).a < after.len()
        &&& laid[f].b < after.len()
        &&& laid[f].a != laid[f].b
        &&& after[laid[f].a as int].neighbors.contains(laid[f].b)
        &&& after[laid[f].b as int].neighbors.contains(laid[f].a)
    } by {
        if f != e && f != m {
            let u = edges[f].a;
            let v = edges[f].b;
            assert(laid[f] == edges[f]);
            assert(nodes[u as int].neighbors.contains(v));
            assert(nodes[v as int].neighbors.contains(u));
        }
    }
    assert forall|f: int, g: int|
        0 <= f < laid.len() && 0 <= g < laid.len() && f != g implies !joins(
        #[trigger] laid[f],
        (#[trigger] laid[g]).a,
        laid[g].b,
    ) by {
        if f != e && f != m {
            assert(laid[f] == edges[f]);
        }
        if g != e && g != m {
            assert(laid[g] == edges[g]);
        }
        if f != e && f != m && g != e && g != m {
            assert(!joins(edges[f], edges[g].a, edges[g].b));
        }
    }
    assert forall|i: int| 0 <= i < after.len() implies (#[trigger] after[i]).neighbors.len()
        <= NEIGHBORS_CAP && after[i].neighbors.no_duplicates() by {
        assert(nodes[i].neighbors.len() <= NEIGHBORS_CAP && nodes[i].neighbors.no_duplicates());
    }
    assert forall|i: int, k: int|
        0 <= i < after.len() && 0 <= k < after[i].neighbors.len() implies (#[trigger] after[i].neighbors[k])
        < after.len() && joined(laid, i as usize, after[i].neighbors[k]) by {
        let x = after[i].neighbors[k];
        assert(after[i].neighbors.contains(x));
        if i == via {
            assert(joins(laid[e], via, a));
            assert(joins(laid[m], via, b));
        } else if x == via {
            assert(i == a || i == b);
            assert(joins(laid[e], a, via));
            assert(joins(laid[m], b, via));
        } else {
            if i == a {
                assert(!ra.contains(b));
            }
            if i == b {
                assert(!rb.contains(a));
            }
            assert(nodes[i].neighbors.contains(x));
            let j = choose|j: int| 0 <= j < nodes[i].neighbors.len() && nodes[i].neighbors[j] == x;
            assert(nodes[i].neighbors[j] < nodes.len());
            assert(joined(edges, i as usize, nodes[i].neighbors[j]));
            let f = choose|f: int| 0 <= f < edges.len() && joins(#[trigger] edges[f], i as usize, x);
            assert(f != e);
            assert(joins(laid[f], i as usize, x));
        }
    }
}

/// Joining two nodes of a web that are not joined yet, and have room for a
/// neighbor each, gives a web.
proof fn lemma_connect_keeps_web(nodes: Seq<NodeView>, edges: Seq<Edge>, p: usize, q: usize)
    requires
        is_web(nodes, edges),
        (p < nodes.len()),
        (q < nodes.len()),
        p != q,
        nodes[p as int].neighbors.len() < NEIGHBORS_CAP,
        nodes[q as int].neighbors.len() < NEIGHBORS_CAP,
        !joined(edges, p, q),
    ensures
        is_web(connected_nodes(nodes, p, q), connected_edges(edges, p, q)),
{
    let after = connected_nodes(nodes, p, q);
    let laid = connected_edges(edges, p, q);
    let m = edges.len() as int;
    let np = nodes[p as int].neighbors;
    let nq = nodes[q as int].neighbors;
    assert(after[p as int].neighbors == np.push(q));
    assert(after[q as int].neighbors == nq.push(p));
    assert(after[p as int].neighbors[np.len() as int] == q);
    assert(after[q as int].neighbors[nq.len() as int] == p);
    assert(laid[m] == Edge { a: p, b: q });
    assert forall|f: int| 0 <= f < m implies !joins(#[trigger] edges[f], p, q) by {}
    assert(!np.contains(q)) by {
        if np.contains(q) {
            let k = choose|k: int| 0 <= k < np.len() && np[k] == q;
            assert(joined(edges, p, nodes[p as int].neighbors[k]));
        }
    }
    assert(!nq.contains(p)) by {
        if nq.contains(p) {
            let k = choose|k: int| 0 <= k < nq.len() && nq[k] == p;
            assert(joined(edges, q, nodes[q as int].neighbors[k]));
            let f = choose|f: int| 0 <= f < edges.len() && joins(#[trigger] edges[f], q, p);
            assert(joins(edges[f], p, q));
        }
    }
    assert forall|f: int| 0 <= f < laid.len() implies {
        &&& (#[trigger] laid[f]).a < after.len()
        &&& laid[f].b < after.len()
        &&& laid[f].a != laid[f].b
        &&& after[laid[f].a as int].neighbors.contains(laid[f].b)
        &&& after[laid[f].b as int].neighbors.contains(laid[f].a)
    } by {
        if f < m {
            let u = edges[f].a;
            let v = edges[f].b;
            assert(nodes[u as int].neighbors.contains(v));
            assert(nodes[v as int].neighbors.contains(u));
            let ku = choose|k: int|
                0 <= k < nodes[u as int].neighbors.len() && nodes[u as int].neighbors[k] == v;
            assert(after[u as int].neighbors[ku] == v);
            let kv = choose|k: int|
                0 <= k < nodes[v as int].neighbors.len() && nodes[v as int].neighbors[k] == u;
            assert(after[v as int].neighbors[kv] == u);
        }
    }
    assert forall|f: int, g: int|
        0 <= f < laid.len() && 0 <= g < laid.len() && f != g implies !joins(
        #[trigger] laid[f],
        (#[trigger] laid[g]).a,
        laid[g].b,
    ) by {
        if f < m && g < m {
            assert(!joins(edges[f], edges[g].a, edges[g].b));
        } else if f < m {
            assert(!joins(edges[f], p, q));
        } else {
            assert(!joins(edges[g], p, q));
        }
    }
    assert forall|i: int| 0 <= i < after.len() implies (#[trigger] after[i]).neighbors.len()
        <= NEIGHBORS_CAP && after[i].neighbors.no_duplicates() by {
        assert(nodes[i].neighbors.len() <= NEIGHBORS_CAP && nodes[i].neighbors.no_duplicates());
        if i == p {
            assert forall|x: int, y: int| 0 <= x < y < after[i].neighbors.len() implies after[i].neighbors[x]
                != after[i].neighbors[y] by {
                if y == np.len() {
                    assert(np.contains(np[x]));
                }
            }
        } else if i == q {
            assert forall|x: int, y: int| 0 <= x < y < after[i].neighbors.len() implies after[i].neighbors[x]
                != after[i].neighbors[y] by {
                if y == nq.len() {
                    assert(nq.contains(nq[x]));
                }
            }
        }
    }
    assert forall|i: int, k: int|
        0 <= i < after.len() && 0 <= k < after[i].neighbors.len() implies (#[trigger] after[i].neighbors[k])
        < after.len() && joined(laid, i as usize, after[i].neighbors[k]) by {
        if k < nodes[i].neighbors.len() {
            let x = nodes[i].neighbors[k];
            assert(x < nodes.len());
            assert(after[i].neighbors[k] == x);
            assert(joined(edges, i as usize, nodes[i].neighbors[k]));
            let f = choose|f: int| 0 <= f < edges.len() && joins(#[trigger] edges[f], i as usize, x);
            assert(joins(laid[f], i as usize, x));
        } else {
            assert(joins(laid[m], p, q));
        }
    }
}

/// A place where a chord meets an edge of the web.
#[derive(Clone, Copy, Debug, PartialEq, Eq, Structural)]
pub struct Crossing {
    pub point: Point,
    pub edge: usize,
}

/// Every edge ends at nodes of the arena.
pub open spec fn edges_in_range(nodes: Seq<NodeView>, edges: Seq<Edge>) -> bool {
    forall|e: int|
        0 <= e < edges.len() ==> (#[trigger] edges[e]).a < nodes.len() && edges[e].b < nodes.len()
}

/// Where the chord from `a` to `b` meets the first `upto` edges, in the
/// order of the edges.
pub open spec fn crossings_spec(
    nodes: Seq<NodeView>,
    edges: Seq<Edge>,
    a: Point,
    b: Point,
    upto: int,
) -> Seq<Crossing>
    decreases upto,
{
    if upto <= 0 {
        Seq::empty()
    } else {
        let rest = crossings_spec(nodes, edges, a, b, upto - 1);
        let edge = edges[upto - 1];
        match intersection_spec(a, b, nodes[edge.a as int].point, nodes[edge.b as int].point) {
            Some(point) => rest.push(Crossing { point, edge: (upto - 1) as usize }),
            None => rest,
        }
    }
}

/// Each crossing lies on a later edge than the one before it.
pub open spec fn edges_ascend(crossings: Seq<Crossing>) -> bool {
    forall|i: int, j: int|
        0 <= i < j < crossings.len() ==> (#[trigger] crossings[i]).edge < (#[trigger] crossings[j]).edge
}

/// No two crossings lie on the same edge.
pub open spec fn edges_differ(crossings: Seq<Crossing>) -> bool {
    forall|i: int, j: int|
        0 <= i < crossings.len() && 0 <= j < crossings.len() && i != j ==> (#[trigger] crossings[i]).edge
            != (#[trigger] crossings[j]).edge
}

/// Finds where the chord from `a` to `b` meets the edges of the web.
pub fn find_crossings(nodes: &Vec<Node>, edges: &Vec<Edge>, a: &Point, b: &Point) -> (found: Vec<
    Crossing,
>)
    requires
        edges_in_range(views(nodes@), edges@),
    ensures
        found@ == crossings_spec(views(nodes@), edges@, *a, *b, edges.len() as int),
        found.len() <= edges.len(),
        edges_ascend(found@),
        forall|k: int| 0 <= k < found.len() ==> (#[trigger] found[k]).edge < edges.len(),
{
    let mut found: Vec<Crossing> = Vec::new();
    let mut e: usize = 0;
    while e < edges.len()
        invariant
            e <= edges.len(),
            edges_in_range(views(nodes@), edges@),
            found@ == crossings_spec(views(nodes@), edges@, *a, *b, e as int),
            found.len() <= e,
            edges_ascend(found@),
            forall|k: int| 0 <= k < found.len() ==> (#[trigger] found[k]).edge < e,
        decreases edges.len() - e,
    {
        let edge: Edge = edges[e];
        assert(edges@[e as int].a < views(nodes@).len());
        assert(views(nodes@)[edge.a as int].point == nodes[edge.a as int].point);
        assert(views(nodes@)[edge.b as int].point == nodes[edge.b as int].point);
        match intersection(a, b, &nodes[edge.a].point, &nodes[edge.b].point) {
            Some(point) => {
                found.push(Crossing { point, edge: e });
            },
            None => {},
        }
        e += 1;
    }
    found
}

/// `c` stands at or before `d` when crossings are ordered by `x` and, for
/// equal `x`, by edge.
pub open spec fn stands_before(c: Crossing, d: Crossing) -> bool {
    c.point.x < d.point.x || (c.point.x == d.point.x && c.edge <= d.edge)
}

/// Each crossing stands at or before every later one.
pub open spec fn is_sorted(crossings: Seq<Crossing>) -> bool {
    forall|i: int, j: int|
        0 <= i < j < crossings.len() ==> stands_before(
            #[trigger] crossings[i],
            #[trigger] crossings[j],
        )
}

/// Where `c` goes into the ordered list `s`, looking from place `from`
/// on: behind every crossing that stands at or before it.
pub open spec fn place_of(s: Seq<Crossing>, c: Crossing, from: int) -> int
    decreases s.len() - from,
{
    if 0 <= from < s.len() && stands_before(s[from], c) {
        place_of(s, c, from + 1)
    } else {
        from
    }
}

/// The crossings of `s` in order: each in turn is put into the ordered
/// list of those before it, behind every crossing that stands at or before
/// it.
pub open spec fn sorted_spec(s: Seq<Crossing>) -> Seq<Crossing>
    decreases s.len(),
{
    if s.len() == 0 {
        s
    } else {
        let rest = sorted_spec(s.drop_last());
        rest.insert(place_of(rest, s.last(), 0), s.last())
    }
}

/// The same crossings ordered by `x`; crossings with equal `x` are ordered
/// by edge.
pub fn sorted_crossings(crossings: &Vec<Crossing>) -> (sorted: Vec<Crossing>)
    ensures
        sorted@ == sorted_spec(crossings@),
        is_sorted(sorted@),
        sorted@.to_multiset() == crossings@.to_multiset(),
        sorted.len() == crossings.len(),
        edges_ascend(crossings@) ==> edges_differ(sorted@),
        forall|k: int|
            0 <= k < sorted.len() ==> exists|m: int|
                0 <= m < crossings.len() && crossings[m] == #[trigger] sorted[k],
{
    broadcast use vstd::seq_lib::group_to_multiset_ensures;

    let mut sorted: Vec<Crossing> = Vec::new();
    let mut i: usize = 0;
    while i < crossings.len()
        invariant
            i <= crossings.len(),
            sorted.len() == i,
            sorted@ == sorted_spec(crossings@.subrange(0, i as int)),
            is_sorted(sorted@),
            sorted@.to_multiset() == crossings@.subrange(0, i as int).to_multiset(),
            forall|k: int|
                0 <= k < sorted.len() ==> exists|m: int|
                    0 <= m < i && crossings[m] == #[trigger] sorted[k],
            edges_ascend(crossings@) ==> edges_differ(sorted@),
        decreases crossings.len() - i,
    {
        let c: Crossing = crossings[i];
        let mut at: usize = 0;
        while at < sorted.len() && (sorted[at].point.x < c.point.x || (sorted[at].point.x
            == c.point.x && sorted[at].edge <= c.edge))
            invariant
                at <= sorted.len(),
                forall|k: int| 0 <= k < at ==> stands_before(#[trigger] sorted[k], c),
                place_of(sorted@, c, 0) == place_of(sorted@, c, at as int),
            decreases sorted.len() - at,
        {
            at += 1;
        }
        let ghost before = sorted@;
        sorted.insert(at, c);
        proof {
            let after = sorted@;
            assert(place_of(before, c, 0) == at);
            assert(crossings@.subrange(0, i + 1).drop_last() =~= crossings@.subrange(0, i as int));
            assert(crossings@.subrange(0, i + 1).last() == c);
            assert(crossings@.subrange(0, i + 1) =~= crossings@.subrange(0, i as int).push(c));
            vstd::seq_lib::to_multiset_insert(before, at as int, c);
            vstd::seq_lib::to_multiset_build(crossings@.subrange(0, i as int), c);
            assert(after == before.insert(at as int, c));
            assert forall|p: int, q: int| 0 <= p < q < after.len() implies stands_before(
                #[trigger] after[p],
                #[trigger] after[q],
            ) by {
                let op = if p < at {
                    p
                } else {
                    p - 1
                };
                let oq = if q < at {
                    q
                } else {
                    q - 1
                };
                if p != at && q != at {
                    assert(stands_before(before[op], before[oq]));
                } else if q == at {
                    assert(stands_before(before[op], c));
                } else {
                    assert(!stands_before(before[at as int], c));
                    if oq > at {
                        assert(stands_before(before[at as int], before[oq]));
                    }
                }
            }
            assert forall|k: int| 0 <= k < after.len() implies exists|m: int|
                0 <= m < i + 1 && crossings[m] == #[trigger] after[k] by {
                if k == at {
                    assert(crossings[i as int] == after[k]);
                } else {
                    let ok = if k < at {
                        k
                    } else {
                        k - 1
                    };
                    let m = choose|m: int| 0 <= m < i && crossings[m] == before[ok];
                    assert(crossings[m] == after[k]);
                }
            }
            if edges_ascend(crossings@) {
                assert forall|p: int, q: int|
                    0 <= p < after.len() && 0 <= q < after.len() && p != q implies (#[trigger] after[p]).edge
                    != (#[trigger] after[q]).edge by {
                    let op = if p < at {
                        p
                    } else {
                        p - 1
                    };
                    let oq = if q < at {
                        q
                    } else {
                        q - 1
                    };
                    if p != at && q != at {
                        assert(before[op].edge != before[oq].edge);
                    } else if q == at {
                        let m = choose|m: int| 0 <= m < i && crossings[m] == before[op];
                        assert(crossings[m].edge < crossings[i as int].edge);
                    } else {
                        let m = choose|m: int| 0 <= m < i && crossings[m] == before[oq];
                        assert(crossings[m].edge < crossings[i as int].edge);
                    }
                }
            }
        }
        i += 1;
    }
    proof {
        assert(crossings@.subrange(0, i as int) =~= crossings@);
    }
    sorted
}

/// The nodes after a chord that meets one edge only has been laid in: a
/// new node at the chord's end `tip`, a new node where the chord meets the
/// edge, the edge led through the latter, and the two new nodes joined.
pub open spec fn split_once_nodes(
    nodes: Seq<NodeView>,
    edge: Edge,
    at: Point,
    tip: Point,
) -> Seq<NodeView> {
    let q = nodes.len() as usize;
    let p = (nodes.len() + 1) as usize;
    connected_nodes(routed_nodes(with_node(with_node(nodes, tip), at), edge, p), p, q)
}

/// The edges after a chord that meets edge `e` only has been laid in, the
/// first of the two new nodes being `q`.
pub open spec fn split_once_edges(edges: Seq<Edge>, e: int, q: usize) -> Seq<Edge> {
    let p = (q + 1) as usize;
    connected_edges(routed_edges(edges, e, p), p, q)
}

/// The nodes after the stretch of a chord between two edges has been laid
/// in: a new node on each edge where the chord meets it, each edge led
/// through its new node, and the two new nodes joined.
pub open spec fn split_twice_nodes(
    nodes: Seq<NodeView>,
    l_edge: Edge,
    l_at: Point,
    r_edge: Edge,
    r_at: Point,
) -> Seq<NodeView> {
    let q = nodes.len() as usize;
    let p = (nodes.len() + 1) as usize;
    connected_nodes(
        routed_nodes(routed_nodes(with_node(with_node(nodes, r_at), l_at), l_edge, p), r_edge, q),
        p,
        q,
    )
}

/// The edges after the stretch of a chord between edges `l` and `r` has
/// been laid in, the first of the two new nodes being `q`.
pub open spec fn split_twice_edges(edges: Seq<Edge>, l: int, r: int, q: usize) -> Seq<Edge> {
    let p = (q + 1) as usize;
    connected_edges(routed_edges(routed_edges(edges, l, p), r, q), p, q)
}

/// Laying a chord that meets one edge into a web gives a web.
proof fn lemma_split_once_keeps_web(
    nodes: Seq<NodeView>,
    edges: Seq<Edge>,
    e: int,
    at: Point,
    tip: Point,
)
    requires
        is_web(nodes, edges),
        0 <= e < edges.len(),
        nodes.len() + 2 <= usize::MAX,
    ensures
        is_web(
            split_once_nodes(nodes, edges[e], at, tip),
            split_once_edges(edges, e, nodes.len() as usize),
        ),
{
    let q = nodes.len() as usize;
    let p = (nodes.len() + 1) as usize;
    let n1 = with_node(nodes, tip);
    let n2 = with_node(n1, at);
    lemma_with_node_keeps_web(nodes, edges, tip);
    lemma_with_node_keeps_web(n1, edges, at);
    assert(n2[p as int].neighbors.len() == 0);
    assert(n2[q as int].neighbors.len() == 0);
    lemma_route_keeps_web(n2, edges, e, p);
    let n3 = routed_nodes(n2, edges[e], p);
    let e3 = routed_edges(edges, e, p);
    assert(n3[q as int].neighbors.len() == n2[q as int].neighbors.len());
    assert(!joined(e3, p, q)) by {
        if joined(e3, p, q) {
            let f = choose|f: int| 0 <= f < e3.len() && joins(#[trigger] e3[f], p, q);
            assert(n3[e3[f].a as int].neighbors.contains(e3[f].b));
            assert(n3[e3[f].b as int].neighbors.contains(e3[f].a));
        }
    }
    lemma_connect_keeps_web(n3, e3, p, q);
}

/// Leading an edge through a node without neighbors and then joining that
/// node to another, which has room and lies not on the edge, gives a web.
proof fn lemma_route_and_connect_keeps_web(
    nodes: Seq<NodeView>,
    edges: Seq<Edge>,
    r: int,
    p: usize,
    q: usize,
)
    requires
        is_web(nodes, edges),
        0 <= r < edges.len(),
        (p < nodes.len()),
        (q < nodes.len()),
        p != q,
        nodes[q as int].neighbors.len() == 0,
        nodes[p as int].neighbors.len() < NEIGHBORS_CAP,
        edges[r].a != p,
        edges[r].b != p,
    ensures
        is_web(
            connected_nodes(routed_nodes(nodes, edges[r], q), p, q),
            connected_edges(routed_edges(edges, r, q), p, q),
        ),
{
    lemma_isolated(nodes, edges, q);
    lemma_route_keeps_web(nodes, edges, r, q);
    let n4 = routed_nodes(nodes, edges[r], q);
    let e4 = routed_edges(edges, r, q);
    assert(n4[p as int] == nodes[p as int]);
    assert(!nodes[p as int].neighbors.contains(q));
    assert(!joined(e4, p, q)) by {
        if joined(e4, p, q) {
            let f = choose|f: int| 0 <= f < e4.len() && joins(#[trigger] e4[f], p, q);
            assert(n4[e4[f].a as int].neighbors.contains(e4[f].b));
            assert(n4[e4[f].b as int].neighbors.contains(e4[f].a));
        }
    }
    lemma_connect_keeps_web(n4, e4, p, q);
}

/// Laying the stretch of a chord between two edges into a web gives a web.
proof fn lemma_split_twice_keeps_web(
    nodes: Seq<NodeView>,
    edges: Seq<Edge>,
    l: int,
    l_at: Point,
    r: int,
    r_at: Point,
)
    requires
        is_web(nodes, edges),
        0 <= l < edges.len(),
        0 <= r < edges.len(),
        l != r,
        nodes.len() + 2 <= usize::MAX,
    ensures
        is_web(
            split_twice_nodes(nodes, edges[l], l_at, edges[r], r_at),
            split_twice_edges(edges, l, r, nodes.len() as usize),
        ),
{
    let q = nodes.len() as usize;
    let p = (nodes.len() + 1) as usize;
    let n1 = with_node(nodes, r_at);
    let n2 = with_node(n1, l_at);
    lemma_with_node_keeps_web(nodes, edges, r_at);
    lemma_with_node_keeps_web(n1, edges, l_at);
    assert(n2[p as int].neighbors.len() == 0);
    assert(n2[q as int].neighbors.len() == 0);
    lemma_route_keeps_web(n2, edges, l, p);
    let n3 = routed_nodes(n2, edges[l], p);
    let e3 = routed_edges(edges, l, p);
    assert(e3[r] == edges[r]);
    assert(n3[q as int].neighbors.len() == n2[q as int].neighbors.len());
    assert(n3[p as int].neighbors.len() == 2) by {
        assert(n3[p as int].neighbors == seq![edges[l].a, edges[l].b]);
    }
    assert(edges[r].a < nodes.len() && edges[r].b < nodes.len());
    lemma_route_and_connect_keeps_web(n3, e3, r, p, q);
}

/// Lays in a chord that meets the web at `crossing` only and ends at `tip`.
pub fn split_once(nodes: &mut Vec<Node>, edges: &mut Vec<Edge>, crossing: &Crossing, tip: Point)
    requires
        crossing.edge < old(edges).len(),
        old(edges)[crossing.edge as int].a < old(nodes).len(),
        old(edges)[crossing.edge as int].b < old(nodes).len(),
    ensures
        views(final(nodes)@) == split_once_nodes(
            views(old(nodes)@),
            old(edges)[crossing.edge as int],
            crossing.point,
            tip,
        ),
        final(edges)@ == split_once_edges(
            old(edges)@,
            crossing.edge as int,
            old(nodes).len() as usize,
        ),
        is_web(views(old(nodes)@), old(edges)@) ==> is_web(views(final(nodes)@), final(edges)@),
        final(nodes).len() == old(nodes).len() + 2,
        final(edges).len() == old(edges).len() + 2,
{
    let ghost n0 = views(nodes@);
    let ghost e0 = edges@;
    let e: usize = crossing.edge;
    let q: usize = add_node(nodes, tip);
    let p: usize = add_node(nodes, crossing.point);
    proof {
        assert(views(nodes@)[p as int].neighbors.len() == 0);
        assert(nodes[p as int]@ == views(nodes@)[p as int]);
    }
    route_through(nodes, edges, e, p);
    connect(nodes, edges, p, q);
    proof {
        if is_web(n0, e0) {
            lemma_split_once_keeps_web(n0, e0, e as int, crossing.point, tip);
        }
    }
}

/// Lays in the stretch of a chord between the crossings `l` and `r`.
pub fn split_twice(nodes: &mut Vec<Node>, edges: &mut Vec<Edge>, l: &Crossing, r: &Crossing)
    requires
        l.edge < old(edges).len(),
        r.edge < old(edges).len(),
        l.edge != r.edge,
        old(edges)[l.edge as int].a < old(nodes).len(),
        old(edges)[l.edge as int].b < old(nodes).len(),
        old(edges)[r.edge as int].a < old(nodes).len(),
        old(edges)[r.edge as int].b < old(nodes).len(),
    ensures
        views(final(nodes)@) == split_twice_nodes(
            views(old(nodes)@),
            old(edges)[l.edge as int],
            l.point,
            old(edges)[r.edge as int],
            r.point,
        ),
        final(edges)@ == split_twice_edges(
            old(edges)@,
            l.edge as int,
            r.edge as int,
            old(nodes).len() as usize,
        ),
        is_web(views(old(nodes)@), old(edges)@) ==> is_web(views(final(nodes)@), final(edges)@),
        final(nodes).len() == old(nodes).len() + 2,
        final(edges).len() == old(edges).len() + 3,
{
    let ghost n0 = views(nodes@);
    let ghost e0 = edges@;
    let q: usize = add_node(nodes, r.point);
    let p: usize = add_node(nodes, l.point);
    let ghost n2 = views(nodes@);
    proof {
        assert(n2[p as int].neighbors.len() == 0);
        assert(n2[q as int].neighbors.len() == 0);
        assert(nodes[p as int]@ == n2[p as int]);
    }
    route_through(nodes, edges, l.edge, p);
    proof {
        let n3 = views(nodes@);
        assert(edges@[r.edge as int] == e0[r.edge as int]);
        assert(n3[q as int].neighbors == n2[q as int].neighbors);
        assert(nodes[q as int]@ == n3[q as int]);
    }
    route_through(nodes, edges, r.edge, q);
    connect(nodes, edges, p, q);
    proof {
        if is_web(n0, e0) {
            lemma_split_twice_keeps_web(n0, e0, l.edge as int, l.point, r.edge as int, r.point);
        }
    }
}

/// The web of two nodes at `a` and `b` joined by one edge.
pub open spec fn seed_nodes(a: Point, b: Point) -> Seq<NodeView> {
    seq![
        NodeView { point: a, neighbors: seq![1usize] },
        NodeView { point: b, neighbors: seq![0usize] },
    ]
}

/// The one edge of that web.
pub open spec fn seed_edges() -> Seq<Edge> {
    seq![Edge { a: 0, b: 1 }]
}

/// Replaces the web by two nodes at `a` and `b` joined by one edge.
pub fn init_web(nodes: &mut Vec<Node>, edges: &mut Vec<Edge>, a: Point, b: Point)
    ensures
        views(final(nodes)@) == seed_nodes(a, b),
        final(edges)@ == seed_edges(),
        is_web(views(final(nodes)@), final(edges)@),
{
    nodes.clear();
    edges.clear();
    let mut first: Vec<usize> = Vec::new();
    first.push(1);
    let mut second: Vec<usize> = Vec::new();
    second.push(0);
    nodes.push(Node { point: a, neighbors: first });
    nodes.push(Node { point: b, neighbors: second });
    edges.push(Edge { a: 0, b: 1 });
    proof {
        let n = views(nodes@);
        assert(n[0].neighbors =~= seq![1usize]);
        assert(n[1].neighbors =~= seq![0usize]);
        assert(n =~= seed_nodes(a, b));
        assert(edges@ =~= seed_edges());
        assert(n[0].neighbors[0] == 1);
        assert(n[1].neighbors[0] == 0);
        assert(joins(edges@[0], 0, 1) && joins(edges@[0], 1, 0));
    }
}

/// Draws a point with both coordinates from `lower` up to but not
/// including `upper`.
fn sample_point(rng: &mut ThreadRng, lower: i32, upper: i32) -> (p: Point)
    requires
        lower < upper,
    ensures
        point_between(p, lower as int, upper as int),
{
    let x: i32 = sample_between(rng, lower, upper);
    let y: i32 = sample_between(rng, lower, upper);
    Point { x, y }
}

/// Replaces the web by one edge between two nodes whose coordinates are
/// drawn from `lower` up to but not including `upper`.
pub fn init(
    rng: &mut ThreadRng,
    lower: i32,
    upper: i32,
    nodes: &mut Vec<Node>,
    edges: &mut Vec<Edge>,
)
    requires
        lower < upper,
    ensures
        exists|a: Point, b: Point|
            point_between(a, lower as int, upper as int) && point_between(
                b,
                lower as int,
                upper as int,
            ) && views(final(nodes)@) == seed_nodes(a, b),
        final(edges)@ == seed_edges(),
        is_web(views(final(nodes)@), final(edges)@),
{
    let a: Point = sample_point(rng, lower, upper);
    let b: Point = sample_point(rng, lower, upper);
    init_web(nodes, edges, a, b);
}

/// Why no chord was laid in.
#[derive(Clone, Copy, Debug, PartialEq, Eq, Structural)]
pub enum InsertError {
    /// None of the chords tried met an edge of the web.
    InsertionExhausted,
}

/// Something is laid in: there is one crossing, or `pick` names the first
/// of two crossings that are next to each other in order.
pub open spec fn lays(found: Seq<Crossing>, pick: usize) -> bool {
    found.len() == 1 || (found.len() >= 2 && pick + 1 < found.len())
}

/// The nodes after a chord with the crossings `found`, in the order of the
/// edges, and the end `tip` has been laid in: where there is one crossing,
/// from that crossing to `tip`; where there are more, the stretch from the
/// crossing at place `pick` of the ordered crossings to the one behind it.
pub open spec fn laid_nodes(
    nodes: Seq<NodeView>,
    edges: Seq<Edge>,
    found: Seq<Crossing>,
    tip: Point,
    pick: usize,
) -> Seq<NodeView> {
    if found.len() == 1 {
        split_once_nodes(nodes, edges[found[0].edge as int], found[0].point, tip)
    } else {
        let l = sorted_spec(found)[pick as int];
        let r = sorted_spec(found)[pick + 1];
        split_twice_nodes(nodes, edges[l.edge as int], l.point, edges[r.edge as int], r.point)
    }
}

/// The edges after that chord has been laid in, `q` being the first of the
/// two new nodes.
pub open spec fn laid_edges(
    edges: Seq<Edge>,
    found: Seq<Crossing>,
    pick: usize,
    q: usize,
) -> Seq<Edge> {
    if found.len() == 1 {
        split_once_edges(edges, found[0].edge as int, q)
    } else {
        let l = sorted_spec(found)[pick as int];
        let r = sorted_spec(found)[pick + 1];
        split_twice_edges(edges, l.edge as int, r.edge as int, q)
    }
}

/// Lays into the web a chord of which the crossings with the edges, in the
/// order of the edges, and the end `tip` are given. Where the chord meets
/// one edge, it is laid in from there to `tip`. Where it meets more, `pick`
/// names one of the ordered crossings, and the stretch from it to the next
/// is laid in. Nothing is laid in, and the web stays as it is, where there
/// is no crossing or `pick` names no crossing with another behind it.
pub fn lay_crossings(
    nodes: &mut Vec<Node>,
    edges: &mut Vec<Edge>,
    found: &Vec<Crossing>,
    tip: Point,
    pick: usize,
) -> (laid: bool)
    requires
        edges_in_range(views(old(nodes)@), old(edges)@),
        edges_ascend(found@),
        forall|k: int| 0 <= k < found.len() ==> (#[trigger] found[k]).edge < old(edges).len(),
    ensures
        laid == lays(found@, pick),
        !laid ==> final(nodes)@ == old(nodes)@ && final(edges)@ == old(edges)@,
        laid ==> views(final(nodes)@) == laid_nodes(
            views(old(nodes)@),
            old(edges)@,
            found@,
            tip,
            pick,
        ),
        laid ==> final(edges)@ == laid_edges(old(edges)@, found@, pick, old(nodes).len() as usize),
        laid ==> final(nodes).len() == old(nodes).len() + 2,
        laid ==> final(edges).len() == old(edges).len() + (if found.len() == 1 {
            2int
        } else {
            3int
        }),
        is_web(views(old(nodes)@), old(edges)@) ==> is_web(views(final(nodes)@), final(edges)@),
{
    let n: usize = found.len();
    if n == 1 {
        assert(old(edges)@[found[0].edge as int].a < views(old(nodes)@).len());
        split_once(nodes, edges, &found[0], tip);
        true
    } else if n >= 2 && pick < n - 1 {
        let sorted: Vec<Crossing> = sorted_crossings(found);
        proof {
            let m0 = choose|m: int| 0 <= m < found.len() && found[m] == sorted[pick as int];
            let m1 = choose|m: int| 0 <= m < found.len() && found[m] == sorted[pick + 1];
            assert(found[m0].edge < edges.len());
            assert(found[m1].edge < edges.len());
            assert(old(edges)@[sorted[pick as int].edge as int].a < views(old(nodes)@).len());
            assert(old(edges)@[sorted[pick + 1].edge as int].a < views(old(nodes)@).len());
        }
        split_twice(nodes, edges, &sorted[pick], &sorted[pick + 1]);
        true
    } else {
        false
    }
}

/// Lays the chord from `a` to `b` into the web, if it meets an edge: see
/// `lay_crossings`, to which it hands the crossings of the chord and `a`
/// for the end.
pub fn lay_chord(
    nodes: &mut Vec<Node>,
    edges: &mut Vec<Edge>,
    a: Point,
    b: Point,
    pick: usize,
) -> (laid: bool)
    requires
        edges_in_range(views(old(nodes)@), old(edges)@),
    ensures
        laid == lays(
            crossings_spec(views(old(nodes)@), old(edges)@, a, b, old(edges).len() as int),
            pick,
        ),
        !laid ==> final(nodes)@ == old(nodes)@ && final(edges)@ == old(edges)@,
        laid ==> views(final(nodes)@) == laid_nodes(
            views(old(nodes)@),
            old(edges)@,
            crossings_spec(views(old(nodes)@), old(edges)@, a, b, old(edges).len() as int),
            a,
            pick,
        ),
        laid ==> final(edges)@ == laid_edges(
            old(edges)@,
            crossings_spec(views(old(nodes)@), old(edges)@, a, b, old(edges).len() as int),
            pick,
            old(nodes).len() as usize,
        ),
        is_web(views(old(nodes)@), old(edges)@) ==> is_web(views(final(nodes)@), final(edges)@),
{
    let found: Vec<Crossing> = find_crossings(nodes, edges, &a, &b);
    lay_crossings(nodes, edges, &found, a, pick)
}

/// The web `(after_nodes, after_edges)` is the web `(nodes, edges)` with
/// the chord from `a` to `b` laid in: where the chord meets one edge only,
/// it is laid in from that edge to `a`; where it meets more, the stretch
/// between two crossings that are next to each other in order is laid in.
pub open spec fn laid_in(
    nodes: Seq<NodeView>,
    edges: Seq<Edge>,
    a: Point,
    b: Point,
    after_nodes: Seq<NodeView>,
    after_edges: Seq<Edge>,
) -> bool {
    let found = crossings_spec(nodes, edges, a, b, edges.len() as int);
    exists|pick: usize|
        {
            &&& #[trigger] lays(found, pick)
            &&& after_nodes == laid_nodes(nodes, edges, found, a, pick)
            &&& after_edges == laid_edges(edges, found, pick, nodes.len() as usize)
        }
}

/// Every chord of `chords` has both ends with coordinates from `lower` up
/// to but not including `upper`, and meets no edge of the web.
pub open spec fn all_missed(
    nodes: Seq<NodeView>,
    edges: Seq<Edge>,
    chords: Seq<(Point, Point)>,
    lower: int,
    upper: int,
) -> bool {
    forall|i: int|
        0 <= i < chords.len() ==> {
            &&& point_between((#[trigger] chords[i]).0, lower, upper)
            &&& point_between(chords[i].1, lower, upper)
            &&& crossings_spec(nodes, edges, chords[i].0, chords[i].1, edges.len() as int).len()
                == 0
        }
}

/// Lays a chord into the web. Chords are drawn, both ends with coordinates
/// from `lower` up to but not including `upper`, until one meets an edge of
/// the web; that one is laid in, between two of its crossings drawn from
/// those next to each other where it meets more edges than one. After
/// `max_attempts` chords that meet no edge the web is left as it is.
pub fn insert(
    rng: &mut ThreadRng,
    lower: i32,
    upper: i32,
    nodes: &mut Vec<Node>,
    edges: &mut Vec<Edge>,
    max_attempts: usize,
) -> (r: Result<(), InsertError>)
    requires
        lower < upper,
        is_web(views(old(nodes)@), old(edges)@),
        old(edges).len() <= i32::MAX,
    ensures
        r is Err ==> final(nodes)@ == old(nodes)@ && final(edges)@ == old(edges)@,
        r is Err ==> exists|missed: Seq<(Point, Point)>|
            missed.len() == max_attempts && #[trigger] all_missed(
                views(old(nodes)@),
                old(edges)@,
                missed,
                lower as int,
                upper as int,
            ),
        r is Ok ==> exists|missed: Seq<(Point, Point)>|
            missed.len() < max_attempts && #[trigger] all_missed(
                views(old(nodes)@),
                old(edges)@,
                missed,
                lower as int,
                upper as int,
            ),
        r is Ok ==> exists|a: Point, b: Point|
            point_between(a, lower as int, upper as int) && point_between(
                b,
                lower as int,
                upper as int,
            ) && #[trigger] laid_in(
                views(old(nodes)@),
                old(edges)@,
                a,
                b,
                views(final(nodes)@),
                final(edges)@,
            ),
        r is Ok ==> final(nodes).len() == old(nodes).len() + 2,
        r is Ok ==> old(edges).len() + 2 <= final(edges).len() <= old(edges).len() + 3,
        max_attempts == 0 ==> r is Err,
        is_web(views(final(nodes)@), final(edges)@),
{
    let ghost mut missed: Seq<(Point, Point)> = Seq::empty();
    let mut attempt: usize = 0;
    while attempt < max_attempts
        invariant
            lower < upper,
            attempt <= max_attempts,
            nodes@ == old(nodes)@,
            edges@ == old(edges)@,
            is_web(views(nodes@), edges@),
            edges.len() <= i32::MAX,
            missed.len() == attempt,
            all_missed(views(nodes@), edges@, missed, lower as int, upper as int),
        decreases max_attempts - attempt,
    {
        let a: Point = sample_point(rng, lower, upper);
        let b: Point = sample_point(rng, lower, upper);
        let found: Vec<Crossing> = find_crossings(nodes, edges, &a, &b);
        let n: usize = found.len();
        if n >= 1 {
            let pick: usize = if n > 1 {
                sample_between(rng, 0, (n - 1) as i32) as usize
            } else {
                0
            };
            let laid: bool = lay_crossings(nodes, edges, &found, a, pick);
            proof {
                assert(lays(found@, pick));
                assert(laid_in(views(old(nodes)@), old(edges)@, a, b, views(nodes@), edges@));
            }
            return Ok(());
        }
        proof {
            let more = missed.push((a, b));
            assert forall|i: int| 0 <= i < more.len() implies {
                &&& point_between((#[trigger] more[i]).0, lower as int, upper as int)
                &&& point_between(more[i].1, lower as int, upper as int)
                &&& crossings_spec(
                    views(nodes@),
                    edges@,
                    more[i].0,
                    more[i].1,
                    edges@.len() as int,
                ).len() == 0
            } by {
                if i < missed.len() {
                    assert(more[i] == missed[i]);
                }
            }
            missed = more;
        }
        attempt += 1;
    }
    Err(InsertError::InsertionExhausted)
}

/// Every neighbor of every node is a node of the arena.
pub open spec fn neighbors_in_range(nodes: Seq<NodeView>) -> bool {
    forall|i: int, k: int|
        0 <= i < nodes.len() && 0 <= k < nodes[i].neighbors.len() ==> (#[trigger] nodes[i].neighbors[k])
            < nodes.len()
}

/// `q` lies farther from `p` than the threshold.
pub open spec fn is_far(p: Point, q: Point, threshold: i128) -> bool {
    threshold < squared_distance_spec(p, q)
}

/// One for a node that lies far from `p`, zero for any other.
pub open spec fn far_count(nodes: Seq<NodeView>, p: Point, threshold: i128) -> spec_fn(
    usize,
) -> int {
    |j: usize|
        if is_far(p, nodes[j as int].point, threshold) {
            1int
        } else {
            0int
        }
}

/// How far `p` lies to the right of a node that lies far from it, zero for
/// any other node.
pub open spec fn far_x(nodes: Seq<NodeView>, p: Point, threshold: i128) -> spec_fn(usize) -> int {
    |j: usize|
        if is_far(p, nodes[j as int].point, threshold) {
            p.x - nodes[j as int].point.x
        } else {
            0int
        }
}

/// How far `p` lies above a node that lies far from it, zero for any other
/// node.
pub open spec fn far_y(nodes: Seq<NodeView>, p: Point, threshold: i128) -> spec_fn(usize) -> int {
    |j: usize|
        if is_far(p, nodes[j as int].point, threshold) {
            p.y - nodes[j as int].point.y
        } else {
            0int
        }
}

/// A coordinate drawn back by one part in `drag` of the mean offset from
/// `count` nodes with summed offset `sum`; unmoved where there is no such
/// node.
pub open spec fn dragged(c: int, sum: int, count: int, drag: int) -> int {
    if count > 0 {
        c - div_toward_zero(div_toward_zero(sum, count), drag)
    } else {
        c
    }
}

/// Where node `i` goes in one pass: toward those of its neighbors that lie
/// farther away than the threshold, read from the places before the pass.
pub open spec fn updated_point(nodes: Seq<NodeView>, i: int, threshold: i128, drag: int) -> Point {
    let p = nodes[i].point;
    let count = total(nodes[i].neighbors, far_count(nodes, p, threshold));
    Point {
        x: dragged(
            p.x as int,
            total(nodes[i].neighbors, far_x(nodes, p, threshold)),
            count,
            drag,
        ) as i32,
        y: dragged(
            p.y as int,
            total(nodes[i].neighbors, far_y(nodes, p, threshold)),
            count,
            drag,
        ) as i32,
    }
}

/// The web after one pass: the first `NODES_INIT` nodes stay, every other
/// node goes to its next place, and no neighbor changes.
pub open spec fn updated(nodes: Seq<NodeView>, threshold: i128, drag: int) -> Seq<NodeView> {
    Seq::new(
        nodes.len(),
        |i: int|
            if i < NODES_INIT {
                nodes[i]
            } else {
                NodeView { point: updated_point(nodes, i, threshold, drag), ..nodes[i] }
            },
    )
}

/// One coordinate of a node's next place.
fn drag_coordinate(c: i32, sum: i128, count: usize, drag: i32) -> (r: i32)
    requires
        drag >= 1,
        (c - i32::MAX) * count <= sum <= (c - i32::MIN) * count,
    ensures
        r == dragged(c as int, sum as int, count as int, drag as int),
{
    if count > 0 {
        proof {
            lemma_mean_bounds(sum as int, count as int, c - i32::MAX, c - i32::MIN);
            lemma_div_toward_zero_bounds(div_toward_zero(sum as int, count as int), drag as int);
        }
        let mean: i128 = sum / (count as i128);
        (c as i128 - mean / (drag as i128)) as i32
    } else {
        c
    }
}

/// Computes the next place of node `i`.
fn next_place(nodes: &Vec<Node>, i: usize, threshold: i128, drag: i32) -> (next: Point)
    requires
        i < nodes.len(),
        neighbors_in_range(views(nodes@)),
        drag >= 1,
    ensures
        next == updated_point(views(nodes@), i as int, threshold, drag as int),
{
    let p: Point = nodes[i].point;
    let n: usize = nodes[i].neighbors.len();
    let ghost web = views(nodes@);
    let ghost around = nodes[i as int].neighbors@;
    let ghost w1 = far_count(web, p, threshold);
    let ghost wx = far_x(web, p, threshold);
    let ghost wy = far_y(web, p, threshold);
    assert(web[i as int].neighbors == around);
    let mut count: usize = 0;
    let mut sum_x: i128 = 0;
    let mut sum_y: i128 = 0;
    let mut k: usize = 0;
    while k < n
        invariant
            k <= n,
            n == around.len(),
            i < nodes.len(),
            web == views(nodes@),
            around == nodes[i as int].neighbors@,
            forall|m: int| 0 <= m < around.len() ==> (#[trigger] around[m]) < nodes.len(),
            w1 == far_count(web, p, threshold),
            wx == far_x(web, p, threshold),
            wy == far_y(web, p, threshold),
            count == total(around.subrange(0, k as int), w1),
            sum_x == total(around.subrange(0, k as int), wx),
            sum_y == total(around.subrange(0, k as int), wy),
            count <= k,
            -(k * 0x1_0000_0000) <= sum_x <= k * 0x1_0000_0000,
            -(k * 0x1_0000_0000) <= sum_y <= k * 0x1_0000_0000,
        decreases n - k,
    {
        let j: usize = nodes[i].neighbors[k];
        assert(around[k as int] < nodes.len());
        let q: Point = nodes[j].point;
        proof {
            let more = around.subrange(0, k + 1);
            assert(more.drop_last() =~= around.subrange(0, k as int));
            assert(more.last() == j);
            assert(web[j as int].point == q);
        }
        if threshold < squared_distance(&p, &q) {
            count += 1;
            sum_x = sum_x + (p.x as i128 - q.x as i128);
            sum_y = sum_y + (p.y as i128 - q.y as i128);
        }
        k += 1;
    }
    proof {
        assert(around.subrange(0, n as int) =~= around);
        assert forall|m: int| 0 <= m < around.len() implies (p.x - i32::MAX) * #[trigger] w1(
            around[m],
        ) <= wx(around[m]) <= (p.x - i32::MIN) * w1(around[m]) && (p.y - i32::MAX) * w1(around[m])
            <= wy(around[m]) <= (p.y - i32::MIN) * w1(around[m]) by {
            assert(w1(around[m]) == 0 || w1(around[m]) == 1);
        }
        lemma_total_scaled(around, wx, w1, p.x - i32::MAX, p.x - i32::MIN);
        lemma_total_scaled(around, wy, w1, p.y - i32::MAX, p.y - i32::MIN);
    }
    Point {
        x: drag_coordinate(p.x, sum_x, count, drag),
        y: drag_coordinate(p.y, sum_y, count, drag),
    }
}

/// Relaxes the web by one pass: every node but the first `NODES_INIT` is
/// drawn one part in `drag` of the way toward those of its neighbors that
/// lie farther from it than `threshold`, squared; all nodes at once.
pub fn update(nodes: &mut Vec<Node>, threshold: i128, drag: i32)
    requires
        neighbors_in_range(views(old(nodes)@)),
        drag >= 1,
    ensures
        views(final(nodes)@) == updated(views(old(nodes)@), threshold, drag as int),
{
    let n: usize = nodes.len();
    let mut next: Vec<Point> = Vec::new();
    let mut i: usize = 0;
    while i < n
        invariant
            n == nodes.len(),
            nodes@ == old(nodes)@,
            neighbors_in_range(views(nodes@)),
            drag >= 1,
            i <= n,
            next.len() == i,
            forall|k: int|
                0 <= k < i ==> #[trigger] next[k] == updated_point(
                    views(nodes@),
                    k,
                    threshold,
                    drag as int,
                ),
        decreases n - i,
    {
        let point: Point = next_place(nodes, i, threshold, drag);
        next.push(point);
        i += 1;
    }
    let mut i: usize = NODES_INIT;
    while i < n
        invariant
            n == nodes.len(),
            n == old(nodes).len(),
            n == next.len(),
            NODES_INIT <= i,
            forall|k: int| 0 <= k < n && (k < NODES_INIT || k >= i) ==> nodes@[k] == old(nodes)@[k],
            forall|k: int|
                NODES_INIT <= k < i && k < n ==> (#[trigger] nodes@[k]).neighbors == old(
                    nodes,
                )@[k].neighbors && nodes@[k].point == next[k],
        decreases n - i,
    {
        nodes[i].point = next[i];
        i += 1;
    }
    proof {
        assert(views(nodes@) =~= updated(views(old(nodes)@), threshold, drag as int));
    }
}

/// Whether nodes and edges fit together is a matter of the neighbors alone.
pub proof fn lemma_web_by_neighbors(before: Seq<NodeView>, after: Seq<NodeView>, edges: Seq<Edge>)
    requires
        is_web(before, edges),
        after.len() == before.len(),
        forall|i: int| 0 <= i < before.len() ==> (#[trigger] after[i]).neighbors == before[i].neighbors,
    ensures
        is_web(after, edges),
{
    assert forall|e: int| 0 <= e < edges.len() implies {
        &&& (#[trigger] edges[e]).a < after.len()
        &&& edges[e].b < after.len()
        &&& edges[e].a != edges[e].b
        &&& after[edges[e].a as int].neighbors.contains(edges[e].b)
        &&& after[edges[e].b as int].neighbors.contains(edges[e].a)
    } by {
        assert(after[edges[e].a as int].neighbors == before[edges[e].a as int].neighbors);
        assert(after[edges[e].b as int].neighbors == before[edges[e].b as int].neighbors);
    }
    assert forall|i: int| 0 <= i < after.len() implies (#[trigger] after[i]).neighbors.len()
        <= NEIGHBORS_CAP by {
        assert(after[i].neighbors == before[i].neighbors);
    }
    assert forall|i: int, k: int|
        0 <= i < after.len() && 0 <= k < after[i].neighbors.len() implies (#[trigger] after[i].neighbors[k])
        < after.len() by {
        assert(after[i].neighbors == before[i].neighbors);
        assert(before[i].neighbors[k] < before.len());
    }
}

/// What steers the growth and the relaxation of a web.
#[derive(Clone, Copy, Debug, PartialEq, Eq, Structural)]
pub struct Config {
    /// A node is drawn toward neighbors farther away than this, squared.
    pub neighbor_distance_squared: i128,
    /// A node moves this fraction of the mean offset from such neighbors.
    pub point_drag: i32,
    /// A chord is laid in once the frame counter has passed this.
    pub insert_frame_interval: u16,
    /// A web with more nodes than this is started afresh.
    pub nodes_limit: usize,
    /// A web with more edges than this is started afresh.
    pub edges_limit: usize,
    /// How many chords that meet no edge are tried before giving up.
    pub max_attempts: usize,
}

impl Config {
    /// The divisor is positive, and the edge limit leaves room to number
    /// the crossings of a chord.
    pub open spec fn wf(self) -> bool {
        self.point_drag >= 1 && self.edges_limit <= i32::MAX
    }
}

/// The web has outgrown its limits and must be started afresh.
pub open spec fn must_reset(nodes: Seq<NodeView>, edges: Seq<Edge>, config: Config) -> bool {
    nodes.len() > config.nodes_limit || edges.len() > config.edges_limit
}

/// One frame of the growing web. A web that has outgrown its limits is
/// replaced by a fresh one; otherwise, once the frame counter has passed
/// the interval, a chord is laid in and the counter starts again. Then the
/// web is relaxed by one pass and the counter goes up by one, unless it has
/// reached the largest value it can hold.
pub fn step(
    rng: &mut ThreadRng,
    lower: i32,
    upper: i32,
    nodes: &mut Vec<Node>,
    edges: &mut Vec<Edge>,
    counter: &mut u16,
    config: &Config,
)
    requires
        config.wf(),
        lower < upper,
        is_web(views(old(nodes)@), old(edges)@),
    ensures
        is_web(views(final(nodes)@), final(edges)@),
        exists|grown: Seq<NodeView>|
            {
                &&& views(final(nodes)@) == #[trigger] updated(
                    grown,
                    config.neighbor_distance_squared,
                    config.point_drag as int,
                )
                &&& if must_reset(views(old(nodes)@), old(edges)@, *config) {
                    &&& final(edges)@ == seed_edges()
                    &&& exists|a: Point, b: Point|
                        point_between(a, lower as int, upper as int) && point_between(
                            b,
                            lower as int,
                            upper as int,
                        ) && grown == seed_nodes(a, b)
                } else if config.insert_frame_interval < *old(counter) {
                    ||| grown == views(old(nodes)@) && final(edges)@ == old(edges)@
                    ||| exists|a: Point, b: Point|
                        point_between(a, lower as int, upper as int) && point_between(
                            b,
                            lower as int,
                            upper as int,
                        ) && #[trigger] laid_in(
                            views(old(nodes)@),
                            old(edges)@,
                            a,
                            b,
                            grown,
                            final(edges)@,
                        )
                } else {
                    grown == views(old(nodes)@) && final(edges)@ == old(edges)@
                }
            },
        *final(counter) == (if !must_reset(views(old(nodes)@), old(edges)@, *config)
            && config.insert_frame_interval < *old(counter) {
            1
        } else if *old(counter) < u16::MAX {
            *old(counter) + 1
        } else {
            u16::MAX as int
        }),
{
    if nodes.len() > config.nodes_limit || edges.len() > config.edges_limit {
        init(rng, lower, upper, nodes, edges);
    } else if config.insert_frame_interval < *counter {
        let _ = insert(rng, lower, upper, nodes, edges, config.max_attempts);
        *counter = 0;
    }
    let ghost grown = views(nodes@);
    update(nodes, config.neighbor_distance_squared, config.point_drag);
    if *counter < u16::MAX {
        *counter = *counter + 1;
    }
    proof {
        let after = views(nodes@);
        assert forall|i: int| 0 <= i < grown.len() implies (#[trigger] after[i]).neighbors
            == grown[i].neighbors by {}
        lemma_web_by_neighbors(grown, after, edges@);
    }
}

} // verus!

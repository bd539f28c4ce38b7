use rand::rngs::ThreadRng;
use ranim::point::{intersection, Point};
use ranim::webs::{
    find_crossings, init, init_web, insert, lay_chord, lay_crossings, sorted_crossings,
    split_once, split_twice, step, update, Config, Crossing, Edge, InsertError, Node,
    NEIGHBORS_CAP, NODES_INIT,
};

fn pt(x: i32, y: i32) -> Point {
    Point { x, y }
}

fn edge(a: usize, b: usize) -> Edge {
    Edge { a, b }
}

fn plain(nodes: &[Node]) -> Vec<((i32, i32), Vec<usize>)> {
    nodes.iter().map(|n| ((n.point.x, n.point.y), n.neighbors.clone())).collect()
}

/// Checks that nodes and edges fit together.
fn assert_web(nodes: &[Node], edges: &[Edge]) {
    for (i, e) in edges.iter().enumerate() {
        assert!(e.a < nodes.len() && e.b < nodes.len() && e.a != e.b);
        assert!(nodes[e.a].neighbors.contains(&e.b));
        assert!(nodes[e.b].neighbors.contains(&e.a));
        for f in &edges[..i] {
            assert!(!((f.a == e.a && f.b == e.b) || (f.a == e.b && f.b == e.a)));
        }
    }
    for (i, n) in nodes.iter().enumerate() {
        assert!(n.neighbors.len() <= NEIGHBORS_CAP);
        for &k in &n.neighbors {
            assert!(k < nodes.len());
            assert!(edges.iter().any(|e| (e.a == i && e.b == k) || (e.a == k && e.b == i)));
        }
    }
}

/// A square of four edges around the origin, built chord by chord.
fn ladder() -> (Vec<Node>, Vec<Edge>) {
    let mut nodes = Vec::new();
    let mut edges = Vec::new();
    init_web(&mut nodes, &mut edges, pt(0, 0), pt(100, 0));
    let chord = (pt(50, 50), pt(50, -50));
    let found = find_crossings(&nodes, &edges, &chord.0, &chord.1);
    assert_eq!(found, vec![Crossing { point: pt(50, 0), edge: 0 }]);
    split_once(&mut nodes, &mut edges, &found[0], chord.0);
    (nodes, edges)
}

#[test]
fn init_web_is_one_edge() {
    let mut nodes = vec![Node { point: pt(9, 9), neighbors: vec![4, 5] }];
    let mut edges = vec![edge(3, 3), edge(1, 2)];
    init_web(&mut nodes, &mut edges, pt(-5, 1), pt(7, 2));
    assert_eq!(plain(&nodes), vec![((-5, 1), vec![1]), ((7, 2), vec![0])]);
    assert_eq!(edges, vec![edge(0, 1)]);
    assert_eq!(nodes.len(), NODES_INIT);
    assert_web(&nodes, &edges);
}

#[test]
fn init_draws_both_ends_in_range() {
    let mut rng: ThreadRng = rand::thread_rng();
    let mut nodes = Vec::new();
    let mut edges = Vec::new();
    for _ in 0..100 {
        init(&mut rng, -4, 3, &mut nodes, &mut edges);
        assert_eq!(nodes.len(), 2);
        assert_eq!(edges, vec![edge(0, 1)]);
        assert_web(&nodes, &edges);
        for n in &nodes {
            assert!(-4 <= n.point.x && n.point.x < 3 && -4 <= n.point.y && n.point.y < 3);
        }
    }
}

#[test]
fn chord_across_one_edge_splits_it() {
    let (nodes, edges) = ladder();
    assert_eq!(
        plain(&nodes),
        vec![
            ((0, 0), vec![3]),
            ((100, 0), vec![3]),
            ((50, 50), vec![3]),
            ((50, 0), vec![0, 1, 2]),
        ]
    );
    assert_eq!(edges, vec![edge(0, 3), edge(3, 1), edge(3, 2)]);
    assert_web(&nodes, &edges);
}

#[test]
fn crossings_come_in_the_order_of_the_edges() {
    let (nodes, edges) = ladder();
    // A level chord meets only the edge that stands upright.
    let found = find_crossings(&nodes, &edges, &pt(0, 10), &pt(100, 10));
    assert_eq!(found, vec![Crossing { point: pt(50, 10), edge: 2 }]);
    // An upright chord through the node at (50, 0) touches the two level
    // edges that end there, and runs along the upright one without meeting
    // it in a single point.
    let found = find_crossings(&nodes, &edges, &pt(50, -10), &pt(50, 10));
    assert_eq!(
        found,
        vec![Crossing { point: pt(50, 0), edge: 0 }, Crossing { point: pt(50, 0), edge: 1 }]
    );
    // A chord that ends on a node touches the edge that ends there.
    let found = find_crossings(&nodes, &edges, &pt(70, 30), &pt(100, 0));
    assert_eq!(found, vec![Crossing { point: pt(100, 0), edge: 1 }]);
    assert_eq!(find_crossings(&nodes, &edges, &pt(0, -5), &pt(100, -5)), vec![]);
    for c in find_crossings(&nodes, &edges, &pt(20, -10), &pt(30, 10)) {
        let e = edges[c.edge];
        assert_eq!(
            intersection(&pt(20, -10), &pt(30, 10), &nodes[e.a].point, &nodes[e.b].point),
            Some(c.point)
        );
    }
}

#[test]
fn crossings_are_sorted_by_x_then_edge() {
    let c = |x: i32, y: i32, edge: usize| Crossing { point: pt(x, y), edge };
    let found = vec![c(5, 0, 0), c(-2, 9, 1), c(5, -4, 2), c(3, 3, 3), c(-2, 0, 4)];
    assert_eq!(
        sorted_crossings(&found),
        vec![c(-2, 9, 1), c(-2, 0, 4), c(3, 3, 3), c(5, 0, 0), c(5, -4, 2)]
    );
    assert_eq!(sorted_crossings(&Vec::new()), vec![]);
    assert_eq!(sorted_crossings(&vec![c(1, 1, 7)]), vec![c(1, 1, 7)]);
    // Whatever the order they come in.
    let shuffled = vec![c(5, -4, 2), c(-2, 0, 4), c(5, 0, 0), c(3, 3, 3), c(-2, 9, 1)];
    assert_eq!(sorted_crossings(&shuffled), sorted_crossings(&found));
}

#[test]
fn chord_across_two_edges_joins_them() {
    let (mut nodes, mut edges) = ladder();
    // A chord along y = x - 20 meets edge 0 at (20, 0) and edge 2 at
    // (50, 30).
    let a = pt(0, -20);
    let b = pt(100, 80);
    let found = sorted_crossings(&find_crossings(&nodes, &edges, &a, &b));
    assert_eq!(
        found,
        vec![Crossing { point: pt(20, 0), edge: 0 }, Crossing { point: pt(50, 30), edge: 2 }]
    );
    split_twice(&mut nodes, &mut edges, &found[0], &found[1]);
    assert_eq!(
        plain(&nodes),
        vec![
            ((0, 0), vec![5]),
            ((100, 0), vec![3]),
            ((50, 50), vec![4]),
            ((50, 0), vec![5, 1, 4]),
            ((50, 30), vec![3, 2, 5]),
            ((20, 0), vec![0, 3, 4]),
        ]
    );
    assert_eq!(
        edges,
        vec![edge(0, 5), edge(3, 1), edge(3, 4), edge(5, 3), edge(4, 2), edge(5, 4)]
    );
    assert_web(&nodes, &edges);
}

#[test]
fn edges_of_a_split_web_meet_only_at_nodes() {
    let (mut nodes, mut edges) = ladder();
    let found =
        sorted_crossings(&find_crossings(&nodes, &edges, &pt(0, -20), &pt(100, 80)));
    split_twice(&mut nodes, &mut edges, &found[0], &found[1]);
    for (i, e) in edges.iter().enumerate() {
        for f in &edges[..i] {
            let met = intersection(
                &nodes[e.a].point,
                &nodes[e.b].point,
                &nodes[f.a].point,
                &nodes[f.b].point,
            );
            if let Some(p) = met {
                let shared: Vec<usize> =
                    [e.a, e.b].iter().copied().filter(|n| *n == f.a || *n == f.b).collect();
                assert_eq!(shared.len(), 1);
                assert_eq!(nodes[shared[0]].point, p);
            }
        }
    }
}

#[test]
fn splitting_two_edges_that_share_a_node() {
    let (mut nodes, mut edges) = ladder();
    // Edges 0 and 1 both end at node 3.
    let l = Crossing { point: pt(40, 0), edge: 0 };
    let r = Crossing { point: pt(60, 0), edge: 1 };
    split_twice(&mut nodes, &mut edges, &l, &r);
    assert_eq!(
        plain(&nodes),
        vec![
            ((0, 0), vec![5]),
            ((100, 0), vec![4]),
            ((50, 50), vec![3]),
            ((50, 0), vec![5, 4, 2]),
            ((60, 0), vec![3, 1, 5]),
            ((40, 0), vec![0, 3, 4]),
        ]
    );
    assert_eq!(
        edges,
        vec![edge(0, 5), edge(3, 4), edge(3, 2), edge(5, 3), edge(4, 1), edge(5, 4)]
    );
    assert_web(&nodes, &edges);
}

/// Three level edges, one above the other, numbered bottom, top, middle.
fn shelves() -> (Vec<Node>, Vec<Edge>) {
    let node = |x: i32, y: i32, other: usize| Node { point: pt(x, y), neighbors: vec![other] };
    let nodes = vec![
        node(0, 0, 1),
        node(100, 0, 0),
        node(0, 20, 3),
        node(100, 20, 2),
        node(0, 10, 5),
        node(100, 10, 4),
    ];
    (nodes, vec![edge(0, 1), edge(2, 3), edge(4, 5)])
}

#[test]
fn lay_chord_leaves_the_web_alone_where_the_chord_meets_nothing() {
    let (mut nodes, mut edges) = ladder();
    let before = plain(&nodes);
    for pick in [0, 1, 5] {
        assert!(!lay_chord(&mut nodes, &mut edges, pt(0, -5), pt(100, -5), pick));
        assert_eq!(plain(&nodes), before);
        assert_eq!(edges, vec![edge(0, 3), edge(3, 1), edge(3, 2)]);
    }
}

#[test]
fn lay_chord_across_one_edge_ends_at_its_first_end() {
    for pick in [0, 1, 99] {
        let mut nodes = Vec::new();
        let mut edges = Vec::new();
        init_web(&mut nodes, &mut edges, pt(0, 0), pt(100, 0));
        assert!(lay_chord(&mut nodes, &mut edges, pt(50, 50), pt(50, -50), pick));
        let (ladder_nodes, ladder_edges) = ladder();
        assert_eq!(plain(&nodes), plain(&ladder_nodes));
        assert_eq!(edges, ladder_edges);
    }
    // The other way round the chord ends below the edge.
    let mut nodes = Vec::new();
    let mut edges = Vec::new();
    init_web(&mut nodes, &mut edges, pt(0, 0), pt(100, 0));
    assert!(lay_chord(&mut nodes, &mut edges, pt(50, -50), pt(50, 50), 0));
    assert_eq!(nodes[2].point, pt(50, -50));
    assert_eq!(nodes[3].point, pt(50, 0));
}

#[test]
fn lay_chord_across_two_edges_joins_the_only_pair() {
    let (mut nodes, mut edges) = ladder();
    let before = plain(&nodes);
    // Two crossings make one pair: only the pick 0 names it.
    assert!(!lay_chord(&mut nodes, &mut edges, pt(0, -20), pt(100, 80), 1));
    assert!(!lay_chord(&mut nodes, &mut edges, pt(0, -20), pt(100, 80), usize::MAX));
    assert_eq!(plain(&nodes), before);
    assert_eq!(edges.len(), 3);
    assert!(lay_chord(&mut nodes, &mut edges, pt(0, -20), pt(100, 80), 0));
    assert_eq!(
        plain(&nodes),
        vec![
            ((0, 0), vec![5]),
            ((100, 0), vec![3]),
            ((50, 50), vec![4]),
            ((50, 0), vec![5, 1, 4]),
            ((50, 30), vec![3, 2, 5]),
            ((20, 0), vec![0, 3, 4]),
        ]
    );
    assert_eq!(
        edges,
        vec![edge(0, 5), edge(3, 1), edge(3, 4), edge(5, 3), edge(4, 2), edge(5, 4)]
    );
    assert_web(&nodes, &edges);
}

#[test]
fn lay_chord_across_three_edges_joins_the_pair_picked() {
    let chord = (pt(40, -5), pt(60, 25));
    let (nodes, edges) = shelves();
    let found = find_crossings(&nodes, &edges, &chord.0, &chord.1);
    assert_eq!(
        found,
        vec![
            Crossing { point: pt(43, 0), edge: 0 },
            Crossing { point: pt(56, 20), edge: 1 },
            Crossing { point: pt(50, 10), edge: 2 },
        ]
    );
    // In order: bottom, middle, top. The pick 1 joins the middle to the top.
    let (mut nodes, mut edges) = shelves();
    assert!(lay_chord(&mut nodes, &mut edges, chord.0, chord.1, 1));
    assert_eq!(
        plain(&nodes),
        vec![
            ((0, 0), vec![1]),
            ((100, 0), vec![0]),
            ((0, 20), vec![6]),
            ((100, 20), vec![6]),
            ((0, 10), vec![7]),
            ((100, 10), vec![7]),
            ((56, 20), vec![2, 3, 7]),
            ((50, 10), vec![4, 5, 6]),
        ]
    );
    assert_eq!(
        edges,
        vec![edge(0, 1), edge(2, 6), edge(4, 7), edge(7, 5), edge(6, 3), edge(7, 6)]
    );
    assert_web(&nodes, &edges);
    // The pick 0 joins the bottom to the middle.
    let (mut nodes, mut edges) = shelves();
    assert!(lay_chord(&mut nodes, &mut edges, chord.0, chord.1, 0));
    assert_eq!(nodes[6].point, pt(50, 10));
    assert_eq!(nodes[7].point, pt(43, 0));
    assert_eq!(
        edges,
        vec![edge(0, 7), edge(2, 3), edge(4, 6), edge(7, 1), edge(6, 5), edge(7, 6)]
    );
    assert_web(&nodes, &edges);
    // There is no third pair.
    let (mut nodes, mut edges) = shelves();
    assert!(!lay_chord(&mut nodes, &mut edges, chord.0, chord.1, 2));
    assert_eq!((nodes.len(), edges.len()), (6, 3));
}

#[test]
fn lay_crossings_does_what_lay_chord_does() {
    let chord = (pt(40, -5), pt(60, 25));
    for pick in 0..4 {
        let (mut nodes, mut edges) = shelves();
        let found = find_crossings(&nodes, &edges, &chord.0, &chord.1);
        let laid = lay_crossings(&mut nodes, &mut edges, &found, chord.0, pick);
        let (mut other_nodes, mut other_edges) = shelves();
        assert_eq!(lay_chord(&mut other_nodes, &mut other_edges, chord.0, chord.1, pick), laid);
        assert_eq!(laid, pick < 2);
        assert_eq!(plain(&nodes), plain(&other_nodes));
        assert_eq!(edges, other_edges);
    }
    let (mut nodes, mut edges) = shelves();
    assert!(!lay_crossings(&mut nodes, &mut edges, &Vec::new(), pt(1, 1), 0));
    assert_eq!((nodes.len(), edges.len()), (6, 3));
}

#[test]
fn insert_into_the_seed_is_all_or_nothing() {
    let mut rng: ThreadRng = rand::thread_rng();
    let mut laid = 0;
    for _ in 0..300 {
        let mut nodes = Vec::new();
        let mut edges = Vec::new();
        init_web(&mut nodes, &mut edges, pt(-40, 3), pt(40, -3));
        match insert(&mut rng, -50, 50, &mut nodes, &mut edges, 3) {
            Ok(()) => {
                laid += 1;
                assert_eq!(nodes.len(), 4);
                assert_eq!(edges, vec![edge(0, 3), edge(3, 1), edge(3, 2)]);
                assert_eq!(nodes[0].neighbors, vec![3]);
                assert_eq!(nodes[1].neighbors, vec![3]);
                assert_eq!(nodes[2].neighbors, vec![3]);
                assert_eq!(nodes[3].neighbors, vec![0, 1, 2]);
                assert_eq!((nodes[0].point, nodes[1].point), (pt(-40, 3), pt(40, -3)));
                // The new node on the edge lies within the edge's box, and
                // the chord's end within the range it was drawn from.
                let p = nodes[3].point;
                assert!(-40 <= p.x && p.x <= 40 && -3 <= p.y && p.y <= 3);
                let q = nodes[2].point;
                assert!(-50 <= q.x && q.x < 50 && -50 <= q.y && q.y < 50);
                assert_web(&nodes, &edges);
            }
            Err(e) => {
                assert_eq!(e, InsertError::InsertionExhausted);
                assert_eq!(plain(&nodes), vec![((-40, 3), vec![1]), ((40, -3), vec![0])]);
                assert_eq!(edges, vec![edge(0, 1)]);
            }
        }
    }
    assert!(laid > 0);
}

#[test]
fn insert_gives_up_after_the_attempts_allowed() {
    let mut rng: ThreadRng = rand::thread_rng();
    let mut nodes = Vec::new();
    let mut edges = Vec::new();
    init_web(&mut nodes, &mut edges, pt(0, 0), pt(10, 0));
    assert_eq!(
        insert(&mut rng, -50, 50, &mut nodes, &mut edges, 0),
        Err(InsertError::InsertionExhausted)
    );
    // No chord drawn from this corner reaches the edge.
    for _ in 0..50 {
        assert_eq!(
            insert(&mut rng, 1000, 1010, &mut nodes, &mut edges, 5),
            Err(InsertError::InsertionExhausted)
        );
    }
    assert_eq!(plain(&nodes), vec![((0, 0), vec![1]), ((10, 0), vec![0])]);
    assert_eq!(edges, vec![edge(0, 1)]);
}

#[test]
fn web_stays_a_web_while_chords_are_laid_in() {
    let mut rng: ThreadRng = rand::thread_rng();
    let mut nodes = Vec::new();
    let mut edges = Vec::new();
    init_web(&mut nodes, &mut edges, pt(-300, -20), pt(300, 20));
    let mut double = 0;
    for _ in 0..120 {
        let (n, m) = (nodes.len(), edges.len());
        match insert(&mut rng, -400, 400, &mut nodes, &mut edges, 1000) {
            Ok(()) => {
                assert_eq!(nodes.len(), n + 2);
                assert!(edges.len() == m + 2 || edges.len() == m + 3);
                if edges.len() == m + 3 {
                    double += 1;
                }
            }
            Err(_) => {
                assert_eq!((nodes.len(), edges.len()), (n, m));
            }
        }
        assert_web(&nodes, &edges);
        assert_eq!(nodes[0].point, pt(-300, -20));
    }
    assert!(nodes.len() > 2);
    assert!(double > 0);
}

#[test]
fn update_draws_nodes_toward_far_neighbors() {
    let (mut nodes, edges) = ladder();
    update(&mut nodes, 100, 4);
    // Node 2 at (50, 50) has the one neighbor (50, 0), 50 away: it comes a
    // quarter of the way, rounded toward zero. Node 3 at (50, 0) has three
    // far neighbors whose mean offset from it is (0, -16).
    assert_eq!(
        plain(&nodes),
        vec![
            ((0, 0), vec![3]),
            ((100, 0), vec![3]),
            ((50, 38), vec![3]),
            ((50, 4), vec![0, 1, 2]),
        ]
    );
    assert_web(&nodes, &edges);
}

#[test]
fn update_leaves_near_neighbors_out() {
    let mut nodes = vec![
        Node { point: pt(0, 0), neighbors: vec![2] },
        Node { point: pt(20, 0), neighbors: vec![2] },
        Node { point: pt(10, 0), neighbors: vec![0, 1, 3] },
        Node { point: pt(10, 90), neighbors: vec![2] },
    ];
    update(&mut nodes, 100, 3);
    // Nodes 0 and 1 are exactly 10 away from node 2, which is not farther
    // than the threshold; only node 3 draws it.
    assert_eq!(nodes[2].point, pt(10, 30));
    assert_eq!(nodes[3].point, pt(10, 60));
    // The first two nodes never move.
    assert_eq!((nodes[0].point, nodes[1].point), (pt(0, 0), pt(20, 0)));
    update(&mut nodes, 100_000, 3);
    assert_eq!((nodes[2].point, nodes[3].point), (pt(10, 30), pt(10, 60)));
}

#[test]
fn update_spans_the_whole_lattice() {
    let mut nodes = vec![
        Node { point: pt(i32::MIN, i32::MIN), neighbors: vec![2] },
        Node { point: pt(i32::MIN, i32::MAX), neighbors: vec![2] },
        Node { point: pt(i32::MAX, i32::MAX), neighbors: vec![0, 1] },
    ];
    update(&mut nodes, 0, 1);
    assert_eq!(nodes[2].point, pt(i32::MIN, 0));
}

#[test]
fn step_lays_a_chord_when_the_counter_has_passed_the_interval() {
    let mut rng: ThreadRng = rand::thread_rng();
    let config = Config {
        neighbor_distance_squared: i128::MAX,
        point_drag: 400,
        insert_frame_interval: 10,
        nodes_limit: 1022,
        edges_limit: 1021,
        max_attempts: 100_000,
    };
    let mut nodes = Vec::new();
    let mut edges = Vec::new();
    init_web(&mut nodes, &mut edges, pt(-300, 0), pt(300, 0));
    let mut counter: u16 = 0;
    for frame in 0..11 {
        step(&mut rng, -400, 400, &mut nodes, &mut edges, &mut counter, &config);
        assert_eq!(counter, frame + 1);
        assert_eq!((nodes.len(), edges.len()), (2, 1));
    }
    step(&mut rng, -400, 400, &mut nodes, &mut edges, &mut counter, &config);
    assert_eq!(counter, 1);
    assert_eq!((nodes.len(), edges.len()), (4, 3));
    assert_web(&nodes, &edges);
}

#[test]
fn step_starts_afresh_when_the_web_has_outgrown_its_limits() {
    let mut rng: ThreadRng = rand::thread_rng();
    let config = Config {
        neighbor_distance_squared: 100,
        point_drag: 400,
        insert_frame_interval: 0,
        nodes_limit: 3,
        edges_limit: 10,
        max_attempts: 10,
    };
    let (mut nodes, mut edges) = ladder();
    let mut counter: u16 = u16::MAX;
    step(&mut rng, 5, 6, &mut nodes, &mut edges, &mut counter, &config);
    assert_eq!(plain(&nodes), vec![((5, 5), vec![1]), ((5, 5), vec![0])]);
    assert_eq!(edges, vec![edge(0, 1)]);
    assert_eq!(counter, u16::MAX);
}

#[test]
fn web_grows_and_relaxes_over_many_frames() {
    let mut rng: ThreadRng = rand::thread_rng();
    let config = Config {
        neighbor_distance_squared: 100 * 16 * 16,
        point_drag: 400,
        insert_frame_interval: 2,
        nodes_limit: 60,
        edges_limit: 90,
        max_attempts: 200,
    };
    let mut nodes = Vec::new();
    let mut edges = Vec::new();
    init(&mut rng, -6400, 6400, &mut nodes, &mut edges);
    let mut counter: u16 = 0;
    let mut largest = 0;
    for _ in 0..600 {
        step(&mut rng, -6400, 6400, &mut nodes, &mut edges, &mut counter, &config);
        assert_web(&nodes, &edges);
        assert!(nodes.len() <= 62 && edges.len() <= 93);
        largest = largest.max(nodes.len());
    }
    assert!(largest > NODES_INIT);
}

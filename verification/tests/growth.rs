use rand::rngs::ThreadRng;
use ranim::growth::{
    can_relax, init_nodes, init_ring, insert_node, phase, relax_nodes, step, update_nodes, Config,
    Node, Phase, COORDINATE_LIMIT, NODES_INIT,
};
use ranim::index_list::CAPACITY;
use ranim::point::Point;

fn pt(x: i32, y: i32) -> Point {
    Point { x, y }
}

fn node(x: i32, y: i32, left_index: usize, right_index: usize) -> Node {
    Node { point: pt(x, y), left_index, right_index }
}

/// Lattice units per unit of length in the examples below.
const SCALE: f64 = 100.0;

fn to_lattice(x: f64, y: f64) -> Point {
    pt((x * SCALE).round() as i32, (y * SCALE).round() as i32)
}

fn zero_offsets(n: usize) -> Vec<Point> {
    vec![pt(0, 0); n]
}

/// Follows `right` links from every node and checks that each walk meets
/// every node once before it returns, and that `left` undoes `right`.
fn assert_ring(nodes: &[Node]) {
    let n = nodes.len();
    for (i, node) in nodes.iter().enumerate() {
        assert!(node.left_index < n && node.right_index < n);
        assert_eq!(nodes[node.right_index].left_index, i);
        assert_eq!(nodes[node.left_index].right_index, i);
    }
    for start in 0..n {
        let mut seen = vec![false; n];
        let mut at = start;
        for _ in 0..n {
            assert!(!seen[at]);
            seen[at] = true;
            at = nodes[at].right_index;
        }
        assert_eq!(at, start);
        assert!(seen.iter().all(|&s| s));
    }
}

fn still() -> Config {
    Config {
        neighbor_radius_squared: i128::MAX,
        search_radius_squared: 0,
        drag_attract: 1,
        drag_reject: 1,
    }
}

#[test]
fn init_ring_links_the_points_in_order() {
    let mut nodes = vec![node(9, 9, 5, 5)];
    init_ring(&mut nodes, &vec![pt(1, 0), pt(2, 0), pt(3, 0), pt(4, 0)]);
    assert_eq!(
        nodes,
        vec![node(1, 0, 3, 1), node(2, 0, 0, 2), node(3, 0, 1, 3), node(4, 0, 2, 0)]
    );
    assert_ring(&nodes);
    init_ring(&mut nodes, &vec![pt(7, 7)]);
    assert_eq!(nodes, vec![node(7, 7, 0, 0)]);
    assert_ring(&nodes);
    init_ring(&mut nodes, &Vec::new());
    assert!(nodes.is_empty());
}

#[test]
fn init_nodes_draws_a_ring_of_three() {
    let mut rng: ThreadRng = rand::thread_rng();
    let mut nodes: Vec<Node> = Vec::new();
    for _ in 0..200 {
        init_nodes(&mut rng, 5, 8, &mut nodes);
        assert_eq!(nodes.len(), NODES_INIT);
        assert_ring(&nodes);
        for n in &nodes {
            assert!(5 <= n.point.x && n.point.x < 8);
            assert!(5 <= n.point.y && n.point.y < 8);
        }
    }
    init_nodes(&mut rng, -3, -2, &mut nodes);
    assert_eq!(nodes, vec![node(-3, -3, 2, 1), node(-3, -3, 0, 2), node(-3, -3, 1, 0)]);
}

#[test]
fn insert_node_splices_at_the_midpoint() {
    let mut nodes = Vec::new();
    init_ring(&mut nodes, &vec![pt(0, 0), pt(10, 0), pt(0, 10)]);
    insert_node(&mut nodes, 1);
    assert_eq!(
        nodes,
        vec![node(0, 0, 2, 1), node(10, 0, 0, 3), node(0, 10, 3, 0), node(5, 5, 1, 2)]
    );
    assert_ring(&nodes);
    // The edge that closes the ring, from the last of the old nodes.
    insert_node(&mut nodes, 2);
    assert_eq!(nodes[4], node(0, 5, 2, 0));
    assert_eq!(nodes[2], node(0, 10, 3, 4));
    assert_eq!(nodes[0], node(0, 0, 4, 1));
    assert_ring(&nodes);
}

#[test]
fn insert_node_grows_a_ring_of_one() {
    let mut nodes = Vec::new();
    init_ring(&mut nodes, &vec![pt(4, 4)]);
    insert_node(&mut nodes, 0);
    assert_eq!(nodes, vec![node(4, 4, 1, 1), node(4, 4, 0, 0)]);
    assert_ring(&nodes);
    insert_node(&mut nodes, 1);
    assert_eq!(nodes, vec![node(4, 4, 2, 1), node(4, 4, 0, 2), node(4, 4, 1, 0)]);
    assert_ring(&nodes);
}

#[test]
fn ring_survives_any_run_of_insertions() {
    let mut nodes = Vec::new();
    init_ring(&mut nodes, &vec![pt(0, 0), pt(1000, 0), pt(0, 1000)]);
    let mut pick: usize = 12345;
    for _ in 0..200 {
        pick = pick.wrapping_mul(1103515245).wrapping_add(12345) % 2147483648;
        let at = pick % nodes.len();
        let before = nodes.len();
        insert_node(&mut nodes, at);
        assert_eq!(nodes.len(), before + 1);
        assert_eq!(nodes[at].right_index, before);
        assert_eq!(nodes[before].left_index, at);
    }
    assert_ring(&nodes);
}

#[test]
fn triangle_contracts_toward_its_centroid() {
    let mut nodes = Vec::new();
    init_ring(&mut nodes, &vec![to_lattice(10.0, 0.0), to_lattice(-5.0, 8.66), to_lattice(-5.0, -8.66)]);
    assert_eq!(nodes[0].point, pt(1000, 0));
    assert_eq!(nodes[1].point, pt(-500, 866));
    assert_eq!(nodes[2].point, pt(-500, -866));
    let config = Config {
        neighbor_radius_squared: 3_000_000,
        search_radius_squared: 100,
        drag_attract: 3,
        drag_reject: 25,
    };
    relax_nodes(&mut nodes, &zero_offsets(3), &config);
    // Each node has moved a third of the way to the midpoint of the other
    // two, which lies straight across the centroid from it.
    assert_eq!(
        nodes,
        vec![node(500, 0, 2, 1), node(-250, 433, 0, 2), node(-250, -433, 1, 0)]
    );
    for (before, after) in [((10.0, 0.0), nodes[0]), ((-5.0, 8.66), nodes[1]), ((-5.0, -8.66), nodes[2])]
    {
        let (x, y): (f64, f64) = before;
        let moved = ((after.point.x as f64 / SCALE - x).powi(2)
            + (after.point.y as f64 / SCALE - y).powi(2))
        .sqrt();
        let to_midpoint = 1.5 * (x * x + y * y).sqrt();
        assert!((moved - to_midpoint / 3.0).abs() < 0.02);
        let left = (after.point.x as f64).hypot(after.point.y as f64) / SCALE;
        assert!(left < (x * x + y * y).sqrt());
    }
}

#[test]
fn triangle_contracts_under_drawn_offsets_of_zero() {
    let mut rng: ThreadRng = rand::thread_rng();
    let mut nodes = Vec::new();
    init_ring(&mut nodes, &vec![pt(1000, 0), pt(-500, 866), pt(-500, -866)]);
    let config = Config {
        neighbor_radius_squared: 3_000_000,
        search_radius_squared: 100,
        drag_attract: 3,
        drag_reject: 25,
    };
    // The only offset in 0..1 is zero.
    update_nodes(&mut rng, 0, 1, &mut nodes, &config);
    assert_eq!(
        nodes,
        vec![node(500, 0, 2, 1), node(-250, 433, 0, 2), node(-250, -433, 1, 0)]
    );
}

#[test]
fn near_nodes_push_each_other_away() {
    let mut nodes = Vec::new();
    init_ring(&mut nodes, &vec![pt(0, 0), pt(10, 0), pt(0, 10)]);
    let config = Config {
        neighbor_radius_squared: i128::MAX,
        search_radius_squared: 150,
        drag_attract: 2,
        drag_reject: 1,
    };
    relax_nodes(&mut nodes, &zero_offsets(3), &config);
    assert_eq!(nodes, vec![node(-3, -3, 2, 1), node(15, 2, 0, 2), node(2, 15, 1, 0)]);
}

#[test]
fn nodes_at_one_place_do_not_count_as_near() {
    let mut nodes = Vec::new();
    init_ring(&mut nodes, &vec![pt(3, 3), pt(3, 3), pt(3, 4)]);
    let config = Config {
        neighbor_radius_squared: i128::MAX,
        search_radius_squared: 100,
        drag_attract: 1_000,
        drag_reject: 1,
    };
    relax_nodes(&mut nodes, &zero_offsets(3), &config);
    // The first two each see the third only; the third sees them both.
    assert_eq!(nodes, vec![node(3, 2, 2, 1), node(3, 2, 0, 2), node(3, 5, 1, 0)]);
}

#[test]
fn offsets_move_the_nodes_before_anything_else() {
    let mut nodes = Vec::new();
    init_ring(&mut nodes, &vec![pt(0, 0), pt(100, 0), pt(0, 100)]);
    let mut config = still();
    config.drag_attract = i32::MAX;
    relax_nodes(&mut nodes, &vec![pt(1, 2), pt(-3, 4), pt(5, -6)], &config);
    assert_eq!(nodes, vec![node(1, 2, 2, 1), node(97, 4, 0, 2), node(5, 94, 1, 0)]);
}

#[test]
fn first_long_edge_is_the_one_subdivided() {
    let mut nodes = Vec::new();
    init_ring(&mut nodes, &vec![pt(0, 0), pt(10, 0), pt(10, 100), pt(0, 200)]);
    let mut config = still();
    config.drag_attract = i32::MAX;
    // Edges 1, 2 and 3 are all longer than 50; edge 1 is found first.
    config.neighbor_radius_squared = 50 * 50;
    relax_nodes(&mut nodes, &zero_offsets(4), &config);
    assert_eq!(
        nodes,
        vec![
            node(0, 0, 3, 1),
            node(10, 0, 0, 4),
            node(10, 100, 4, 3),
            node(0, 200, 2, 0),
            node(10, 50, 1, 2),
        ]
    );
    assert_ring(&nodes);
    // An edge exactly as long as the threshold stays.
    init_ring(&mut nodes, &vec![pt(0, 0), pt(3, 4)]);
    config.neighbor_radius_squared = 25;
    relax_nodes(&mut nodes, &zero_offsets(2), &config);
    assert_eq!(nodes.len(), 2);
    config.neighbor_radius_squared = 24;
    relax_nodes(&mut nodes, &zero_offsets(2), &config);
    assert_eq!(nodes.len(), 3);
    assert_eq!(nodes[2], node(1, 2, 0, 1));
}

#[test]
fn new_node_takes_part_in_the_pass_that_made_it() {
    let mut nodes = Vec::new();
    init_ring(&mut nodes, &vec![pt(0, 0), pt(100, 0)]);
    let config = Config {
        neighbor_radius_squared: 10,
        search_radius_squared: 0,
        drag_attract: 2,
        drag_reject: 1,
    };
    relax_nodes(&mut nodes, &zero_offsets(2), &config);
    // Node 2 appears at (50, 0) between 0 and 1; then node 0 is drawn half
    // way to the midpoint of 1 and 2, and node 1 to that of 2 and 0.
    assert_eq!(nodes, vec![node(37, 0, 1, 2), node(63, 0, 2, 0), node(50, 0, 0, 1)]);
}

#[test]
fn relaxation_repeats_exactly() {
    let config = Config {
        neighbor_radius_squared: 40 * 40,
        search_radius_squared: 60 * 60,
        drag_attract: 35,
        drag_reject: 25,
    };
    let run = || {
        let mut nodes = Vec::new();
        init_ring(&mut nodes, &vec![pt(-31, 7), pt(44, -12), pt(5, 60)]);
        let mut seed: u32 = 1;
        for _ in 0..300 {
            let offsets: Vec<Point> = (0..nodes.len())
                .map(|_| {
                    seed = seed.wrapping_mul(1664525).wrapping_add(1013904223);
                    let x = (seed >> 16) as i32 % 7 - 3;
                    seed = seed.wrapping_mul(1664525).wrapping_add(1013904223);
                    let y = (seed >> 16) as i32 % 7 - 3;
                    pt(x, y)
                })
                .collect();
            if nodes.len() < CAPACITY && can_relax(&nodes) {
                relax_nodes(&mut nodes, &offsets, &config);
            }
        }
        nodes
    };
    let first = run();
    let second = run();
    assert!(first.len() > 3);
    assert_eq!(first, second);
    assert_ring(&first);
}

#[test]
fn relaxation_reads_only_the_places_before_the_pass() {
    // Four nodes in a row, all links the same whichever node is relaxed
    // first: the outcome is that of relaxing each node against the old
    // places of the others.
    let mut nodes = Vec::new();
    init_ring(&mut nodes, &vec![pt(0, 0), pt(8, 0), pt(16, 0), pt(24, 0)]);
    let config = Config {
        neighbor_radius_squared: i128::MAX,
        search_radius_squared: 0,
        drag_attract: 2,
        drag_reject: 1,
    };
    relax_nodes(&mut nodes, &zero_offsets(4), &config);
    let xs: Vec<i32> = nodes.iter().map(|n| n.point.x).collect();
    assert_eq!(xs, vec![8, 8, 16, 16]);
}

#[test]
fn empty_ring_stays_empty() {
    let mut nodes: Vec<Node> = Vec::new();
    relax_nodes(&mut nodes, &Vec::new(), &still());
    assert!(nodes.is_empty());
}

#[test]
fn full_ring_takes_one_more_node() {
    let points: Vec<Point> = (0..(CAPACITY as i32 - 1)).map(|i| pt(i * 10, 0)).collect();
    let mut nodes = Vec::new();
    init_ring(&mut nodes, &points);
    let config = Config {
        neighbor_radius_squared: 10 * 10,
        search_radius_squared: 15 * 15,
        drag_attract: 35,
        drag_reject: 25,
    };
    relax_nodes(&mut nodes, &zero_offsets(CAPACITY - 1), &config);
    assert_eq!(nodes.len(), CAPACITY);
    assert_ring(&nodes);
}

#[test]
fn can_relax_checks_links_and_limit() {
    assert!(can_relax(&Vec::new()));
    assert!(can_relax(&vec![node(COORDINATE_LIMIT, -COORDINATE_LIMIT, 0, 0)]));
    assert!(!can_relax(&vec![node(COORDINATE_LIMIT + 1, 0, 0, 0)]));
    assert!(!can_relax(&vec![node(0, -COORDINATE_LIMIT - 1, 0, 0)]));
    assert!(!can_relax(&vec![node(0, 0, 1, 0)]));
    assert!(!can_relax(&vec![node(0, 0, 0, 1)]));
    assert!(can_relax(&vec![node(0, 0, 1, 1), node(0, 0, 0, 0)]));
}

#[test]
fn phase_tells_growing_from_reset() {
    let mut nodes = Vec::new();
    init_ring(&mut nodes, &vec![pt(0, 0), pt(9, 0), pt(9, 9)]);
    assert_eq!(phase(&nodes, 3), Phase::Growing);
    assert_eq!(phase(&nodes, 2), Phase::Reset);
    assert_eq!(phase(&Vec::new(), 0), Phase::Growing);
    nodes[1].point.y = COORDINATE_LIMIT + 1;
    assert_eq!(phase(&nodes, 3), Phase::Reset);
    nodes[1].point.y = 0;
    nodes[2].left_index = 3;
    assert_eq!(phase(&nodes, 3), Phase::Reset);
}

#[test]
fn relaxation_at_the_limit_stays_in_range() {
    let l = COORDINATE_LIMIT;
    let mut nodes = Vec::new();
    init_ring(&mut nodes, &vec![pt(l, l), pt(-l, -l), pt(l, -l)]);
    let config = Config {
        neighbor_radius_squared: i128::MAX,
        search_radius_squared: i128::MAX,
        drag_attract: 1,
        drag_reject: 1,
    };
    relax_nodes(&mut nodes, &vec![pt(l, l), pt(-l, -l), pt(l, -l)], &config);
    // Node 0 was moved to (2l, 2l), drawn to the midpoint (0, -2l) of the
    // other two, and pushed by the mean offset (2l, 4l) from them.
    assert_eq!(nodes[0].point, pt(0 + 2 * l, -2 * l + 4 * l));
    // Node 1: moved to (-2l, -2l), midpoint (2l, 0), mean offset (-4l, -2l).
    assert_eq!(nodes[1].point, pt(2 * l - 4 * l, 0 - 2 * l));
    // Node 2: moved to (2l, -2l), midpoint (0, 0), mean offset (2l, -2l).
    assert_eq!(nodes[2].point, pt(0 + 2 * l, 0 - 2 * l));
}

#[test]
fn step_relaxes_a_ring_within_its_limits() {
    let mut rng: ThreadRng = rand::thread_rng();
    let mut nodes = Vec::new();
    init_ring(&mut nodes, &vec![pt(1000, 0), pt(-500, 866), pt(-500, -866)]);
    let config = Config {
        neighbor_radius_squared: 3_000_000,
        search_radius_squared: 100,
        drag_attract: 3,
        drag_reject: 25,
    };
    step(&mut rng, -10, 10, 0, 1, &mut nodes, &config, 3);
    assert_eq!(
        nodes,
        vec![node(500, 0, 2, 1), node(-250, 433, 0, 2), node(-250, -433, 1, 0)]
    );
}

#[test]
fn step_starts_afresh_when_the_ring_has_outgrown_its_limit() {
    let mut rng: ThreadRng = rand::thread_rng();
    let mut nodes = Vec::new();
    init_ring(&mut nodes, &vec![pt(0, 0), pt(900, 0), pt(900, 900), pt(0, 900)]);
    step(&mut rng, 40, 50, 0, 1, &mut nodes, &still(), 3);
    assert_eq!(nodes.len(), NODES_INIT);
    assert_ring(&nodes);
    for n in &nodes {
        assert!(40 <= n.point.x && n.point.x < 50 && 40 <= n.point.y && n.point.y < 50);
    }
}

#[test]
fn step_starts_afresh_when_a_node_has_strayed() {
    let mut rng: ThreadRng = rand::thread_rng();
    let mut nodes = vec![node(COORDINATE_LIMIT + 1, 0, 0, 0)];
    step(&mut rng, 40, 50, 0, 1, &mut nodes, &still(), 100);
    assert_eq!(nodes.len(), NODES_INIT);
    let mut nodes = vec![node(0, 0, 3, 0)];
    step(&mut rng, 40, 50, 0, 1, &mut nodes, &still(), 100);
    assert_eq!(nodes.len(), NODES_INIT);
    assert_ring(&nodes);
}

#[test]
fn ring_grows_and_stays_a_ring_over_many_frames() {
    let mut rng: ThreadRng = rand::thread_rng();
    let mut nodes = Vec::new();
    let config = Config {
        neighbor_radius_squared: 100 * 64 * 64,
        search_radius_squared: 200 * 64 * 64,
        drag_attract: 35,
        drag_reject: 25,
    };
    init_nodes(&mut rng, -133 * 64, 133 * 64, &mut nodes);
    let mut largest = 0;
    for _ in 0..400 {
        step(&mut rng, -133 * 64, 133 * 64, -10, 11, &mut nodes, &config, 60);
        assert_ring(&nodes);
        assert!(nodes.len() <= 61);
        largest = largest.max(nodes.len());
    }
    assert!(largest > NODES_INIT);
}

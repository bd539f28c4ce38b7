use arrayvec::ArrayVec;
use ranim::kdtree::{
    bounding_box, bounds_to_point_squared_distance, make_tree, search_trees, Bounds, Tree,
};
use ranim::point::{squared_distance, Point};

fn pt(x: i32, y: i32) -> Point {
    Point { x, y }
}

fn square(half: i32) -> Bounds {
    Bounds { lower: pt(-half, -half), upper: pt(half, half) }
}

/// A small generator, so that the same points come out on every run.
struct Lcg(u64);

impl Lcg {
    fn next(&mut self) -> u32 {
        self.0 = self.0.wrapping_mul(6364136223846793005).wrapping_add(1442695040888963407);
        (self.0 >> 33) as u32
    }

    fn between(&mut self, low: i32, high: i32) -> i32 {
        low + (self.next() % ((high - low) as u32)) as i32
    }

    fn points(&mut self, n: usize, low: i32, high: i32) -> Vec<Point> {
        (0..n).map(|_| pt(self.between(low, high), self.between(low, high))).collect()
    }
}

fn sorted(points: &[Point]) -> Vec<(i32, i32)> {
    let mut v: Vec<(i32, i32)> = points.iter().map(|p| (p.x, p.y)).collect();
    v.sort();
    v
}

fn collect(trees: &[Tree], node: Option<usize>, out: &mut Vec<Point>) {
    if let Some(i) = node {
        collect(trees, trees[i].left, out);
        out.push(trees[i].point);
        collect(trees, trees[i].right, out);
    }
}

fn height(trees: &[Tree], node: Option<usize>) -> usize {
    match node {
        Some(i) => 1 + height(trees, trees[i].left).max(height(trees, trees[i].right)),
        None => 0,
    }
}

fn contains(b: &Bounds, p: &Point) -> bool {
    b.lower.x <= p.x && p.x <= b.upper.x && b.lower.y <= p.y && p.y <= b.upper.y
}

fn coordinate(p: &Point, horizontal: bool) -> i32 {
    if horizontal {
        p.x
    } else {
        p.y
    }
}

/// Checks every node of the subtree against what a k-d tree promises.
fn check_subtree(trees: &[Tree], i: usize) {
    let t = &trees[i];
    assert!(contains(&t.bounds, &t.point));
    let mut below = Vec::new();
    collect(trees, t.left, &mut below);
    for p in &below {
        assert!(coordinate(p, t.horizontal) <= coordinate(&t.point, t.horizontal));
    }
    let mut above = Vec::new();
    collect(trees, t.right, &mut above);
    for p in &above {
        assert!(coordinate(p, t.horizontal) >= coordinate(&t.point, t.horizontal));
    }
    assert!(above.len() <= below.len() && below.len() <= above.len() + 1);
    if let Some(l) = t.left {
        assert!(l < i);
        assert_eq!(trees[l].horizontal, !t.horizontal);
        assert_eq!(trees[l].bounds.lower, t.bounds.lower);
        if t.horizontal {
            assert_eq!(trees[l].bounds.upper, pt(t.point.x, t.bounds.upper.y));
        } else {
            assert_eq!(trees[l].bounds.upper, pt(t.bounds.upper.x, t.point.y));
        }
        check_subtree(trees, l);
    }
    if let Some(r) = t.right {
        assert!(r < i);
        assert_eq!(trees[r].horizontal, !t.horizontal);
        assert_eq!(trees[r].bounds.upper, t.bounds.upper);
        if t.horizontal {
            assert_eq!(trees[r].bounds.lower, pt(t.point.x, t.bounds.lower.y));
        } else {
            assert_eq!(trees[r].bounds.lower, pt(t.bounds.lower.x, t.point.y));
        }
        check_subtree(trees, r);
    }
}

/// Checks the order of the points alone: around the middle point of every
/// range that the tree splits.
fn check_order(points: &[Point], horizontal: bool) {
    if points.is_empty() {
        return;
    }
    let m = points.len() / 2;
    for p in &points[..m] {
        assert!(coordinate(p, horizontal) <= coordinate(&points[m], horizontal));
    }
    for p in &points[m + 1..] {
        assert!(coordinate(p, horizontal) >= coordinate(&points[m], horizontal));
    }
    check_order(&points[..m], !horizontal);
    check_order(&points[m + 1..], !horizontal);
}

fn brute_force(points: &[Point], q: &Point, radius_squared: i128) -> Vec<(i32, i32)> {
    let near: Vec<Point> = points
        .iter()
        .filter(|p| **p != *q && squared_distance(p, q) < radius_squared)
        .copied()
        .collect();
    sorted(&near)
}

fn query(trees: &Vec<Tree>, root: usize, q: &Point, radius_squared: i128) -> Vec<(i32, i32)> {
    let mut neighbors: ArrayVec<usize, 512> = ArrayVec::new();
    search_trees(q, trees, root, radius_squared, &mut neighbors);
    let found: Vec<Point> = neighbors.iter().map(|&i| trees[i].point).collect();
    sorted(&found)
}

#[test]
fn empty_input_gives_no_tree() {
    let mut trees: Vec<Tree> = Vec::new();
    let mut points: Vec<Point> = Vec::new();
    assert_eq!(make_tree(&mut trees, &mut points, true, square(10)), None);
    assert!(trees.is_empty());
    let mut neighbors: ArrayVec<usize, 512> = ArrayVec::new();
    search_trees(&pt(0, 0), &trees, 0, 100, &mut neighbors);
    assert!(neighbors.is_empty());
}

#[test]
fn single_point_is_the_root() {
    let mut trees: Vec<Tree> = Vec::new();
    let mut points = vec![pt(3, -4)];
    let root = make_tree(&mut trees, &mut points, true, square(10));
    assert_eq!(root, Some(0));
    assert_eq!(
        trees[0],
        Tree { point: pt(3, -4), bounds: square(10), horizontal: true, left: None, right: None }
    );
}

#[test]
fn three_points_split_at_the_median() {
    let mut trees: Vec<Tree> = Vec::new();
    let mut points = vec![pt(5, 1), pt(-5, 2), pt(0, 3)];
    let root = make_tree(&mut trees, &mut points, true, square(10));
    assert_eq!(root, Some(2));
    assert_eq!(points, vec![pt(-5, 2), pt(0, 3), pt(5, 1)]);
    assert_eq!(
        trees[0],
        Tree {
            point: pt(-5, 2),
            bounds: Bounds { lower: pt(-10, -10), upper: pt(0, 10) },
            horizontal: false,
            left: None,
            right: None,
        }
    );
    assert_eq!(
        trees[1],
        Tree {
            point: pt(5, 1),
            bounds: Bounds { lower: pt(0, -10), upper: pt(10, 10) },
            horizontal: false,
            left: None,
            right: None,
        }
    );
    assert_eq!(
        trees[2],
        Tree {
            point: pt(0, 3),
            bounds: square(10),
            horizontal: true,
            left: Some(0),
            right: Some(1),
        }
    );
}

#[test]
fn a_vertical_root_splits_on_y() {
    let mut trees: Vec<Tree> = Vec::new();
    let mut points = vec![pt(5, 1), pt(-5, 2), pt(0, 3)];
    let root = make_tree(&mut trees, &mut points, false, square(10)).unwrap();
    assert_eq!(trees[root].point, pt(-5, 2));
    assert!(!trees[root].horizontal);
    assert_eq!(points, vec![pt(5, 1), pt(-5, 2), pt(0, 3)]);
    check_subtree(&trees, root);
}

#[test]
fn tree_holds_every_input_point_once() {
    let mut rng = Lcg(7);
    for n in [1usize, 2, 3, 4, 7, 8, 31, 100, 512] {
        let input = rng.points(n, -400, 400);
        let mut points = input.clone();
        let mut trees: Vec<Tree> = Vec::new();
        let root = make_tree(&mut trees, &mut points, true, square(400));
        assert_eq!(root, Some(n - 1));
        assert_eq!(trees.len(), n);
        let mut walked = Vec::new();
        collect(&trees, root, &mut walked);
        assert_eq!(walked, points);
        assert_eq!(sorted(&walked), sorted(&input));
        check_order(&points, true);
    }
}

#[test]
fn tree_is_partitioned_and_balanced() {
    let mut rng = Lcg(11);
    for n in [1usize, 2, 5, 16, 33, 255, 256, 500] {
        let mut points = rng.points(n, -1000, 1000);
        let mut trees: Vec<Tree> = Vec::new();
        let root = make_tree(&mut trees, &mut points, true, square(1000)).unwrap();
        assert_eq!(trees[root].bounds, square(1000));
        assert!(trees[root].horizontal);
        check_subtree(&trees, root);
        let digits = (usize::BITS - n.leading_zeros()) as usize;
        assert!(height(&trees, Some(root)) <= digits);
    }
}

#[test]
fn equal_points_each_get_a_node() {
    let mut points = vec![pt(1, 1); 9];
    points.push(pt(0, 0));
    let mut trees: Vec<Tree> = Vec::new();
    let root = make_tree(&mut trees, &mut points, true, square(5)).unwrap();
    assert_eq!(trees.len(), 10);
    check_subtree(&trees, root);
    let mut walked = Vec::new();
    collect(&trees, Some(root), &mut walked);
    assert_eq!(walked.iter().filter(|p| **p == pt(1, 1)).count(), 9);
    // From (0, 0) all nine are found; from (1, 1) only the other place is.
    assert_eq!(query(&trees, root, &pt(0, 0), 3), vec![(1, 1); 9]);
    assert_eq!(query(&trees, root, &pt(1, 1), 3), vec![(0, 0)]);
}

#[test]
fn points_outside_the_rectangle_still_get_their_nodes() {
    let mut rng = Lcg(3);
    let input = rng.points(50, -1000, 1000);
    let mut points = input.clone();
    let mut trees: Vec<Tree> = Vec::new();
    let root = make_tree(&mut trees, &mut points, false, square(10));
    assert_eq!(root, Some(49));
    let mut walked = Vec::new();
    collect(&trees, root, &mut walked);
    assert_eq!(walked, points);
    assert_eq!(sorted(&walked), sorted(&input));
    assert!(height(&trees, root) <= 6);
    assert_eq!(trees[49].bounds, square(10));
    check_order(&points, false);
}

#[test]
fn make_tree_appends_to_the_arena() {
    let mut trees: Vec<Tree> = Vec::new();
    let mut first = vec![pt(1, 1), pt(2, 2)];
    let a = make_tree(&mut trees, &mut first, true, square(5)).unwrap();
    let kept: Vec<Tree> = trees.clone();
    let mut second = vec![pt(-1, -1), pt(-2, -2), pt(-3, -3)];
    let b = make_tree(&mut trees, &mut second, false, square(5)).unwrap();
    assert_eq!((a, b), (1, 4));
    assert_eq!(&trees[..2], &kept[..]);
    check_subtree(&trees, a);
    check_subtree(&trees, b);
    assert_eq!(query(&trees, b, &pt(0, 0), 100), vec![(-3, -3), (-2, -2), (-1, -1)]);
    assert_eq!(query(&trees, a, &pt(0, 0), 100), vec![(1, 1), (2, 2)]);
}

#[test]
fn search_agrees_with_brute_force() {
    let mut rng = Lcg(2024);
    for round in 0..40 {
        let n = 1 + (rng.next() as usize) % 300;
        let input = rng.points(n, -200, 200);
        let mut points = input.clone();
        let mut trees: Vec<Tree> = Vec::new();
        let horizontal = round % 2 == 0;
        let root = make_tree(&mut trees, &mut points, horizontal, square(200)).unwrap();
        for _ in 0..20 {
            let q = pt(rng.between(-250, 250), rng.between(-250, 250));
            let r = rng.between(0, 150) as i128;
            assert_eq!(query(&trees, root, &q, r * r), brute_force(&input, &q, r * r));
        }
        // A query from one of the points never reports that place itself.
        let q = input[0];
        assert_eq!(query(&trees, root, &q, 90 * 90), brute_force(&input, &q, 90 * 90));
    }
}

#[test]
fn search_radius_is_exclusive() {
    let mut points = vec![pt(0, 0), pt(3, 4), pt(6, 8)];
    let mut trees: Vec<Tree> = Vec::new();
    let root = make_tree(&mut trees, &mut points, true, square(10)).unwrap();
    assert_eq!(query(&trees, root, &pt(0, 0), 25), vec![]);
    assert_eq!(query(&trees, root, &pt(0, 0), 26), vec![(3, 4)]);
    assert_eq!(query(&trees, root, &pt(0, 0), 101), vec![(3, 4), (6, 8)]);
    assert_eq!(query(&trees, root, &pt(0, 0), 0), vec![]);
    assert_eq!(query(&trees, root, &pt(0, 0), -5), vec![]);
}

#[test]
fn search_reports_node_then_right_then_left() {
    let mut points = vec![pt(5, 1), pt(-5, 2), pt(0, 3)];
    let mut trees: Vec<Tree> = Vec::new();
    let root = make_tree(&mut trees, &mut points, true, square(10)).unwrap();
    let mut neighbors: ArrayVec<usize, 512> = ArrayVec::new();
    search_trees(&pt(0, 0), &trees, root, 1000, &mut neighbors);
    assert_eq!(&neighbors[..], &[2, 1, 0]);
    // What the list held before stays in front.
    search_trees(&pt(9, 9), &trees, root, 90, &mut neighbors);
    assert_eq!(&neighbors[..], &[2, 1, 0, 1]);
}

#[test]
fn search_skips_a_child_that_does_not_precede_its_parent() {
    // Children stand before their parents in the arena; a link that points
    // elsewhere is taken for no child at all.
    let whole = square(100);
    let trees = vec![
        Tree {
            point: pt(50, 0),
            bounds: Bounds { lower: pt(0, -100), upper: pt(100, 100) },
            horizontal: false,
            left: None,
            right: None,
        },
        Tree { point: pt(0, 0), bounds: whole, horizontal: true, left: Some(7), right: Some(0) },
    ];
    let mut neighbors: ArrayVec<usize, 512> = ArrayVec::new();
    search_trees(&pt(60, 0), &trees, 1, 20 * 20, &mut neighbors);
    assert_eq!(&neighbors[..], &[0]);
}

#[test]
fn search_fills_a_list_to_its_capacity() {
    let mut rng = Lcg(5);
    let input = rng.points(512, -50, 50);
    let mut points = input.clone();
    let mut trees: Vec<Tree> = Vec::new();
    let root = make_tree(&mut trees, &mut points, true, square(50)).unwrap();
    let q = pt(1000, 1000);
    let mut neighbors: ArrayVec<usize, 512> = ArrayVec::new();
    search_trees(&q, &trees, root, i128::MAX, &mut neighbors);
    assert_eq!(neighbors.len(), 512);
    let mut seen: Vec<usize> = neighbors.to_vec();
    seen.sort();
    assert_eq!(seen, (0..512).collect::<Vec<usize>>());
}

#[test]
fn distance_to_a_rectangle() {
    let b = Bounds { lower: pt(0, 0), upper: pt(10, 5) };
    assert_eq!(bounds_to_point_squared_distance(&b, &pt(3, 3)), 0);
    assert_eq!(bounds_to_point_squared_distance(&b, &pt(0, 5)), 0);
    assert_eq!(bounds_to_point_squared_distance(&b, &pt(-3, 2)), 9);
    assert_eq!(bounds_to_point_squared_distance(&b, &pt(13, 9)), 9 + 16);
    assert_eq!(bounds_to_point_squared_distance(&b, &pt(4, -6)), 36);
    let side: i128 = 1i128 << 32;
    let far = Bounds { lower: pt(i32::MAX, i32::MAX), upper: pt(i32::MAX, i32::MAX) };
    assert_eq!(
        bounds_to_point_squared_distance(&far, &pt(i32::MIN, i32::MIN)),
        2 * (side - 1) * (side - 1)
    );
}

#[test]
fn bounding_box_is_tight() {
    assert_eq!(bounding_box(&Vec::new()), None);
    assert_eq!(bounding_box(&vec![pt(2, -3)]), Some(Bounds { lower: pt(2, -3), upper: pt(2, -3) }));
    let points = vec![pt(2, -3), pt(-7, 4), pt(5, 5), pt(0, -9)];
    assert_eq!(bounding_box(&points), Some(Bounds { lower: pt(-7, -9), upper: pt(5, 5) }));
}

#[test]
fn tree_over_the_bounding_box_answers_queries() {
    let mut rng = Lcg(99);
    let input = rng.points(200, -100_000, 100_000);
    let bounds = bounding_box(&input).unwrap();
    let mut points = input.clone();
    let mut trees: Vec<Tree> = Vec::new();
    let root = make_tree(&mut trees, &mut points, true, bounds).unwrap();
    check_subtree(&trees, root);
    let q = input[17];
    let r: i128 = 30_000;
    assert_eq!(query(&trees, root, &q, r * r), brute_force(&input, &q, r * r));
}

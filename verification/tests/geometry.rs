use ranim::point::{intersection, midpoint, squared_distance, Point};

fn pt(x: i32, y: i32) -> Point {
    Point { x, y }
}

#[test]
fn squared_distance_is_exact() {
    let a = pt(3, 4);
    let b = pt(0, 0);
    assert_eq!(squared_distance(&a, &b), 25);
    assert_eq!(squared_distance(&b, &a), 25);
    assert_eq!(squared_distance(&a, &a), 0);
    assert_eq!(squared_distance(&pt(-7, 2), &pt(5, -3)), 144 + 25);
}

#[test]
fn squared_distance_spans_the_whole_lattice() {
    let a = pt(i32::MIN, i32::MIN);
    let b = pt(i32::MAX, i32::MAX);
    let side: i128 = (1i128 << 32) - 1;
    assert_eq!(squared_distance(&a, &b), 2 * side * side);
}

#[test]
fn midpoint_rounds_toward_zero() {
    assert_eq!(midpoint(&pt(0, 0), &pt(10, 4)), pt(5, 2));
    assert_eq!(midpoint(&pt(0, 0), &pt(3, -3)), pt(1, -1));
    assert_eq!(midpoint(&pt(-1, 1), &pt(-2, 2)), pt(-1, 1));
    assert_eq!(midpoint(&pt(i32::MAX, i32::MIN), &pt(i32::MAX, i32::MIN)), pt(i32::MAX, i32::MIN));
    assert_eq!(midpoint(&pt(i32::MAX, i32::MAX), &pt(i32::MIN, i32::MIN)), pt(0, 0));
}

#[test]
fn crossing_diagonals_meet_in_the_middle() {
    let r = intersection(&pt(0, 0), &pt(10, 10), &pt(0, 10), &pt(10, 0));
    assert_eq!(r, Some(pt(5, 5)));
    let r = intersection(&pt(10, 10), &pt(0, 0), &pt(10, 0), &pt(0, 10));
    assert_eq!(r, Some(pt(5, 5)));
}

#[test]
fn parallel_segments_do_not_meet() {
    assert_eq!(intersection(&pt(0, 0), &pt(10, 0), &pt(0, 5), &pt(10, 5)), None);
    // On one line, and even overlapping: still no single meeting point.
    assert_eq!(intersection(&pt(0, 0), &pt(10, 0), &pt(5, 0), &pt(15, 0)), None);
    // A segment that is a single point has no direction.
    assert_eq!(intersection(&pt(3, 3), &pt(3, 3), &pt(0, 0), &pt(10, 10)), None);
}

#[test]
fn segments_that_stop_short_do_not_meet() {
    assert_eq!(intersection(&pt(0, 0), &pt(4, 4), &pt(0, 10), &pt(10, 0)), None);
    assert_eq!(intersection(&pt(0, 0), &pt(10, 10), &pt(0, 10), &pt(4, 6)), None);
    assert_eq!(intersection(&pt(0, 0), &pt(1, 0), &pt(5, -1), &pt(5, 1)), None);
}

#[test]
fn touching_at_an_end_counts_as_meeting() {
    // The first segment ends on the second.
    assert_eq!(intersection(&pt(0, 0), &pt(5, 0), &pt(5, -5), &pt(5, 5)), Some(pt(5, 0)));
    // The first segment starts on the second.
    assert_eq!(intersection(&pt(5, 0), &pt(9, 0), &pt(5, -5), &pt(5, 5)), Some(pt(5, 0)));
    // The second segment ends on the first.
    assert_eq!(intersection(&pt(0, 0), &pt(10, 0), &pt(4, 7), &pt(4, 0)), Some(pt(4, 0)));
    // Two segments sharing an end.
    assert_eq!(intersection(&pt(0, 0), &pt(10, 0), &pt(10, 0), &pt(10, 10)), Some(pt(10, 0)));
}

#[test]
fn meeting_point_is_rounded_toward_the_first_end() {
    // The lines meet at (10/3, 10/3): a third of the way from a to b.
    let a = pt(0, 0);
    let b = pt(10, 10);
    let r = intersection(&a, &b, &pt(0, 5), &pt(10, 0));
    assert_eq!(r, Some(pt(3, 3)));
    // The same meeting point reached from the other end: two thirds of the
    // way from b to a, which is a step of -6.67, rounded to -6.
    let r = intersection(&b, &a, &pt(0, 5), &pt(10, 0));
    assert_eq!(r, Some(pt(4, 4)));
    // With negative coordinates.
    let r = intersection(&pt(0, 0), &pt(-10, -10), &pt(0, -5), &pt(-10, 0));
    assert_eq!(r, Some(pt(-3, -3)));
}

#[test]
fn intersection_handles_the_corners_of_the_lattice() {
    let lo = i32::MIN;
    let hi = i32::MAX;
    let r = intersection(&pt(lo, lo), &pt(hi, hi), &pt(lo, hi), &pt(hi, lo));
    assert_eq!(r, Some(pt(-1, -1)));
    let r = intersection(&pt(lo, 0), &pt(hi, 0), &pt(0, lo), &pt(0, hi));
    assert_eq!(r, Some(pt(0, 0)));
}

use street_network::geometry::{
    approx_dedupe, contains_duplicates, deduped, isqrt, polyline_len, pt_dist, pt_midpoint,
    reversed, shift_line, wraparound_index, Pt,
};

fn pt(x: i64, y: i64) -> Pt {
    Pt { x, y }
}

#[test]
fn isqrt_exact_values() {
    assert_eq!(isqrt(0), 0);
    assert_eq!(isqrt(1), 1);
    assert_eq!(isqrt(3), 1);
    assert_eq!(isqrt(4), 2);
    assert_eq!(isqrt(99), 9);
    assert_eq!(isqrt(100), 10);
    assert_eq!(isqrt(9_000_000_000_000_000_000), 3_000_000_000);
}

#[test]
fn distance_is_euclidean_floor() {
    assert_eq!(pt_dist(pt(0, 0), pt(3, 4)), 5);
    assert_eq!(pt_dist(pt(0, 0), pt(1, 1)), 1);
    assert_eq!(pt_dist(pt(-3, 0), pt(0, -4)), 5);
    assert_eq!(pt_dist(pt(7, 7), pt(7, 7)), 0);
}

#[test]
fn midpoint_rounds_toward_zero() {
    assert_eq!(pt_midpoint(pt(0, 0), pt(10, 4)), pt(5, 2));
    assert_eq!(pt_midpoint(pt(0, 0), pt(3, 3)), pt(1, 1));
    assert_eq!(pt_midpoint(pt(0, 0), pt(-3, -3)), pt(-1, -1));
}

#[test]
fn polyline_length_sums_segments() {
    let pts = vec![pt(0, 0), pt(3, 4), pt(3, 104)];
    assert_eq!(polyline_len(&pts), 105);
    let two = vec![pt(0, 0), pt(0, 200)];
    assert_eq!(polyline_len(&two), 200);
    let one = vec![pt(5, 5)];
    assert_eq!(polyline_len(&one), 0);
}

#[test]
fn reversal_reverses() {
    let pts = vec![pt(1, 1), pt(2, 2), pt(3, 3)];
    assert_eq!(reversed(&pts), vec![pt(3, 3), pt(2, 2), pt(1, 1)]);
}

#[test]
fn dedup_removes_consecutive_duplicates_only() {
    let pts = vec![pt(1, 1), pt(1, 1), pt(2, 2), pt(1, 1)];
    assert_eq!(deduped(&pts), vec![pt(1, 1), pt(2, 2), pt(1, 1)]);
}

#[test]
fn duplicate_detection_sees_nonadjacent_repeats() {
    assert!(contains_duplicates(&vec![pt(1, 1), pt(2, 2), pt(1, 1)]));
    assert!(!contains_duplicates(&vec![pt(1, 1), pt(2, 2), pt(3, 3)]));
}

#[test]
fn smoothing_collapses_close_points() {
    // the middle point lies within one distance unit of the first
    let pts = vec![pt(0, 0), pt(0, 90), pt(0, 500)];
    assert_eq!(approx_dedupe(&pts), vec![pt(0, 0), pt(0, 500)]);
    // all points distinct and far apart survive
    let far = vec![pt(0, 0), pt(0, 200), pt(0, 400)];
    assert_eq!(approx_dedupe(&far), far);
}

#[test]
fn lateral_shift_moves_perpendicular() {
    // northward segment shifted to the right of travel lands east of it
    let (a, b) = shift_line(pt(0, 0), pt(0, 100), 10);
    assert_eq!(a, pt(10, 0));
    assert_eq!(b, pt(10, 100));
    // a negative width shifts to the left
    let (c, d) = shift_line(pt(0, 0), pt(0, 100), -10);
    assert_eq!(c, pt(-10, 0));
    assert_eq!(d, pt(-10, 100));
}

#[test]
fn wraparound_indexing() {
    assert_eq!(wraparound_index(3, 0), 0);
    assert_eq!(wraparound_index(3, -1), 2);
    assert_eq!(wraparound_index(3, 5), 2);
    assert_eq!(wraparound_index(3, -4), 2);
    assert_eq!(wraparound_index(1, -3), 0);
}

use declutter::geometry::is_point_near_segments;
use declutter::geometry::point_in_ring;
use declutter::geometry::segment_within_sq;

// Coordinates are integer pixels; the unit-square cases are scaled by two so
// the square's center is representable.

#[test]
fn ring_with_fewer_than_three_points_contains_nothing() {
    assert!(!point_in_ring(0, 0, &[]));
    assert!(!point_in_ring(0, 0, &[0, 0]));
    assert!(!point_in_ring(0, 0, &[0, 0, 2, 0]));
}

#[test]
fn square_center_is_inside() {
    let ring = [0, 0, 2, 0, 2, 2, 0, 2];
    assert!(point_in_ring(1, 1, &ring));
}

#[test]
fn point_outside_square_is_outside() {
    let ring = [0, 0, 2, 0, 2, 2, 0, 2];
    assert!(!point_in_ring(4, 4, &ring));
}

#[test]
fn trailing_odd_value_is_ignored() {
    let ring = [0, 0, 2, 0, 2, 2, 0, 2, 99];
    assert!(point_in_ring(1, 1, &ring));
}

#[test]
fn segment_distance_is_strictly_compared() {
    // Point (0, 0) against the horizontal segment (0, 10)-(10, 10):
    // squared distance is exactly 100.
    assert!(segment_within_sq(0, 0, 0, 10, 10, 10, 101));
    assert!(!segment_within_sq(0, 0, 0, 10, 10, 10, 100));
}

#[test]
fn zero_length_segment_degenerates_to_point_distance() {
    // Both endpoints at (3, 4): squared distance from the origin is 25.
    assert!(segment_within_sq(0, 0, 3, 4, 3, 4, 26));
    assert!(!segment_within_sq(0, 0, 3, 4, 3, 4, 25));
}

#[test]
fn projection_is_clamped_to_the_segment() {
    // Point (20, 0) against (0, 0)-(10, 0): the closest segment point is the
    // endpoint (10, 0), squared distance 100.
    assert!(segment_within_sq(20, 0, 0, 0, 10, 0, 101));
    assert!(!segment_within_sq(20, 0, 0, 0, 10, 0, 100));
}

#[test]
fn near_segments_four_value_layout() {
    // One segment (0,10)-(10,10); the point is 10 pixels away.
    let segs = [0, 10, 10, 10];
    assert!(is_point_near_segments(0, 0, &segs, 11));
    assert!(!is_point_near_segments(0, 0, &segs, 10));
}

#[test]
fn near_segments_eight_value_layout_uses_given_box() {
    // Segment plus its true bounding box.
    let segs = [0, 10, 10, 10, 0, 10, 10, 10];
    assert!(is_point_near_segments(0, 0, &segs, 11));
    assert!(!is_point_near_segments(0, 0, &segs, 10));
    // A wrong, far-away box makes the record invisible: the box filter is
    // applied exactly as stored.
    let bad_box = [0, 10, 10, 10, 1000, 2000, 1000, 2000];
    assert!(!is_point_near_segments(0, 0, &bad_box, 11));
}

#[test]
fn near_segments_empty_buffer() {
    assert!(!is_point_near_segments(0, 0, &[], 5));
}

use starfield::{
    clamp_to_line_reach, is_in_bounds, isqrt, line_points, neighboring_section_indices,
    section_index,
};

#[test]
fn isqrt_rounds_down() {
    assert_eq!(isqrt(0), 0);
    assert_eq!(isqrt(1), 1);
    assert_eq!(isqrt(15), 3);
    assert_eq!(isqrt(16), 4);
    assert_eq!(isqrt(1295), 35);
    assert_eq!(isqrt(1296), 36);
    assert_eq!(isqrt(u64::MAX), 4294967295);
}

#[test]
fn neighbours_of_a_corner_section() {
    assert_eq!(neighboring_section_indices(0), vec![0, 1, 10, 11]);
    assert_eq!(neighboring_section_indices(99), vec![88, 89, 98, 99]);
    assert_eq!(neighboring_section_indices(9), vec![8, 9, 18, 19]);
}

#[test]
fn neighbours_of_an_inner_section() {
    assert_eq!(
        neighboring_section_indices(55),
        vec![44, 45, 46, 54, 55, 56, 64, 65, 66]
    );
    assert_eq!(neighboring_section_indices(5), vec![4, 5, 6, 14, 15, 16]);
}

#[test]
fn bounds_of_the_world() {
    assert!(is_in_bounds(0, 0));
    assert!(is_in_bounds(639, 639));
    assert!(!is_in_bounds(640, 0));
    assert!(!is_in_bounds(0, 640));
    assert!(!is_in_bounds(-1, 10));
    assert!(!is_in_bounds(10, -1));
}

#[test]
fn section_of_a_point() {
    assert_eq!(section_index(0, 0), 0);
    assert_eq!(section_index(63, 63), 0);
    assert_eq!(section_index(64, 0), 1);
    assert_eq!(section_index(0, 64), 10);
    assert_eq!(section_index(639, 639), 99);
}

#[test]
fn clamp_keeps_short_offsets() {
    assert_eq!(clamp_to_line_reach(3, 4), (3, 4));
    assert_eq!(clamp_to_line_reach(35, 0), (35, 0));
    assert_eq!(clamp_to_line_reach(0, -35), (0, -35));
}

#[test]
fn clamp_scales_long_offsets() {
    assert_eq!(clamp_to_line_reach(100, 0), (35, 0));
    assert_eq!(clamp_to_line_reach(-70, 0), (-35, 0));
    assert_eq!(clamp_to_line_reach(50, 50), (24, 24));
    assert_eq!(clamp_to_line_reach(-50, 50), (-24, 24));
    assert_eq!(clamp_to_line_reach(36, 0), (35, 0));
}

#[test]
fn clamped_length_lies_between_33_and_35() {
    for dx in -120..=120 {
        for dy in [-90, -41, -36, -20, 0, 7, 25, 36, 80] {
            let sq = dx * dx + dy * dy;
            let (rx, ry) = clamp_to_line_reach(dx, dy);
            let len_sq = rx * rx + ry * ry;
            if sq > 35 * 35 {
                assert!(len_sq <= 35 * 35, "({dx}, {dy}) -> ({rx}, {ry})");
                assert!(len_sq > 33 * 33, "({dx}, {dy}) -> ({rx}, {ry})");
            } else {
                assert_eq!((rx, ry), (dx, dy));
            }
        }
    }
}

#[test]
fn line_points_of_a_shallow_line() {
    assert_eq!(
        line_points(0, 0, 4, 2),
        vec![(0, 0), (1, 0), (2, 1), (3, 1)]
    );
}

#[test]
fn line_points_toward_negative_offsets() {
    assert_eq!(line_points(10, 10, 7, 10), vec![(10, 10), (9, 10), (8, 10)]);
    assert_eq!(line_points(5, 5, 5, 5), vec![]);
}

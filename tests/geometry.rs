use polygon_plot::geometry::{
    canvas_side, normalize_angle, polygon_angles, polygon_edges, CANVAS_FLOOR, FULL_TURN,
};

#[test]
fn square_turned_by_twenty_two_and_a_half_degrees() {
    let angles = polygon_angles(4, 22_500);
    assert_eq!(angles, vec![22_500, 112_500, 202_500, 292_500]);
    assert_eq!(canvas_side(700), 1000);
}

#[test]
fn octagon_on_a_large_canvas() {
    let angles = polygon_angles(8, 0);
    assert_eq!(
        angles,
        vec![0, 45_000, 90_000, 135_000, 180_000, 225_000, 270_000, 315_000]
    );
    assert_eq!(canvas_side(5000), 5200);
}

#[test]
fn offset_beyond_a_full_turn_wraps() {
    for n in 3..=20usize {
        assert_eq!(polygon_angles(n, 370_000), polygon_angles(n, 10_000));
    }
}

#[test]
fn negative_offset_wraps_into_range() {
    assert_eq!(normalize_angle(-10_000), 350_000);
    assert_eq!(normalize_angle(-360_000), 0);
    assert_eq!(normalize_angle(-1), 359_999);
    assert_eq!(normalize_angle(720_001), 1);
    assert_eq!(normalize_angle(i64::MIN), (i64::MIN as i128).rem_euclid(360_000) as u64);
    assert_eq!(polygon_angles(4, -90_000), vec![270_000, 0, 90_000, 180_000]);
}

#[test]
fn angles_follow_the_rotation_formula() {
    for n in 3..=20usize {
        for offset in [-725_300i64, -1, 0, 22_500, 359_999, 370_000] {
            let angles = polygon_angles(n, offset);
            assert_eq!(angles.len(), n);
            for (i, a) in angles.iter().enumerate() {
                let expected =
                    ((360_000 * i as i64) / n as i64 + offset).rem_euclid(360_000) as u64;
                assert_eq!(*a, expected);
                assert!(*a < FULL_TURN);
            }
        }
    }
}

#[test]
fn heptagon_angles_round_down_to_millidegrees() {
    let angles = polygon_angles(7, 0);
    assert_eq!(angles[1], 51_428);
    assert_eq!(angles[6], 308_571);
}

#[test]
fn no_sides_gives_no_angles() {
    assert!(polygon_angles(0, 12_345).is_empty());
}

#[test]
fn canvas_side_is_monotone_with_a_floor() {
    let mut last = 0u32;
    for d in (0..6000u32).step_by(7) {
        let s = canvas_side(d);
        assert!(s >= CANVAS_FLOOR);
        assert!(s >= last);
        last = s;
    }
    assert_eq!(canvas_side(0), 1000);
    assert_eq!(canvas_side(800), 1000);
    assert_eq!(canvas_side(801), 1001);
}

#[test]
fn edges_close_the_polygon() {
    let pts = vec![(0i64, 0i64), (10, 0), (10, 10), (0, 10)];
    let edges = polygon_edges(&pts);
    assert_eq!(
        edges,
        vec![
            ((0, 0), (10, 0)),
            ((10, 0), (10, 10)),
            ((10, 10), (0, 10)),
            ((0, 10), (0, 0)),
        ]
    );
    assert!(polygon_edges(&Vec::new()).is_empty());
}

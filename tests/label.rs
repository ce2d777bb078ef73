use polygon_plot::label::vertex_label;

#[test]
fn label_shows_coordinates_and_angle() {
    assert_eq!(vertex_label(323, 134, 22_500), "(323, 134) / 22.5\u{b0}");
    assert_eq!(vertex_label(-134, -323, 202_500), "(-134, -323) / 202.5\u{b0}");
}

#[test]
fn label_rounds_angle_to_tenths() {
    assert_eq!(vertex_label(0, 0, 51_428), "(0, 0) / 51.4\u{b0}");
    assert_eq!(vertex_label(0, 0, 51_450), "(0, 0) / 51.5\u{b0}");
    assert_eq!(vertex_label(0, 0, 359_960), "(0, 0) / 360.0\u{b0}");
    assert_eq!(vertex_label(2500, 0, 0), "(2500, 0) / 0.0\u{b0}");
}

use polygon_plot::canvas::Color;
use polygon_plot::render::{base_layer, RenderStyle};

#[test]
fn reference_style_constants() {
    let s = RenderStyle::reference();
    assert_eq!(s.background, Color { r: 220, g: 220, b: 220, a: 255 });
    assert_eq!(s.circle, Color { r: 0, g: 0, b: 255, a: 255 });
    assert_eq!(s.edge, Color { r: 0, g: 0, b: 0, a: 255 });
    assert_eq!(s.marker, Color { r: 255, g: 0, b: 0, a: 255 });
    assert_eq!(s.marker_radius, 3);
    assert_eq!(s.label, Color { r: 0, g: 0, b: 0, a: 255 });
    assert_eq!(s.label_scale, 18);
}

#[test]
fn base_layer_for_a_small_diameter_uses_the_floor() {
    let s = RenderStyle::reference();
    let c = base_layer(700, &s);
    assert_eq!((c.width(), c.height()), (1000, 1000));
    assert_eq!(c.get_pixel(500, 500), s.background);
    assert_eq!(c.get_pixel(850, 500), s.circle);
    assert_eq!(c.get_pixel(500, 150), s.circle);
    assert_eq!(c.get_pixel(0, 0), s.background);
}

#[test]
fn base_layer_for_a_large_diameter_adds_the_margin() {
    let s = RenderStyle::reference();
    let c = base_layer(5000, &s);
    assert_eq!((c.width(), c.height()), (5200, 5200));
    assert_eq!(c.get_pixel(2600 + 2500, 2600), s.circle);
    assert_eq!(c.get_pixel(2600, 2600 - 2500), s.circle);
}

#[test]
fn rendering_twice_gives_the_same_bytes() {
    let s = RenderStyle::reference();
    let mut a = base_layer(700, &s);
    let mut b = base_layer(700, &s);
    let centres = vec![(823i64, 634i64), (366, 823), (177, 366), (634, 177)];
    a.draw_markers(&centres, s.marker_radius, s.marker);
    b.draw_markers(&centres, s.marker_radius, s.marker);
    assert_eq!(a.as_bytes(), b.as_bytes());
}

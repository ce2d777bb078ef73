use polygon_plot::canvas::{blend, blend_channel, Canvas, Color, Coverage};

const GREY: Color = Color { r: 220, g: 220, b: 220, a: 255 };
const RED: Color = Color { r: 255, g: 0, b: 0, a: 255 };
const BLACK: Color = Color { r: 0, g: 0, b: 0, a: 255 };

#[test]
fn filled_canvas_is_uniform() {
    let c = Canvas::filled(3, 2, GREY);
    assert_eq!(c.width(), 3);
    assert_eq!(c.height(), 2);
    assert_eq!(c.as_bytes().len(), 24);
    for y in 0..2 {
        for x in 0..3 {
            assert_eq!(c.get_pixel(x, y), GREY);
        }
    }
}

#[test]
fn put_pixel_changes_one_pixel() {
    let mut c = Canvas::filled(4, 4, GREY);
    c.put_pixel(2, 1, RED);
    assert_eq!(&c.as_bytes()[4 * (1 * 4 + 2)..4 * (1 * 4 + 2) + 4], &[255, 0, 0, 255]);
    assert_eq!(c.get_pixel(2, 1), RED);
    assert_eq!(c.get_pixel(1, 2), GREY);
}

#[test]
fn marker_is_a_filled_disc() {
    let mut c = Canvas::filled(20, 20, GREY);
    c.draw_marker(10, 10, 3, RED);
    for y in 0..20i64 {
        for x in 0..20i64 {
            let inside = (x - 10) * (x - 10) + (y - 10) * (y - 10) <= 9;
            let expected = if inside { RED } else { GREY };
            assert_eq!(c.get_pixel(x as u32, y as u32), expected);
        }
    }
}

#[test]
fn marker_at_the_canvas_edge_is_clipped() {
    let mut c = Canvas::filled(10, 10, GREY);
    c.draw_marker(0, 5, 3, RED);
    assert_eq!(c.get_pixel(0, 5), RED);
    assert_eq!(c.get_pixel(3, 5), RED);
    assert_eq!(c.get_pixel(4, 5), GREY);
    assert_eq!(c.get_pixel(0, 2), RED);
    assert_eq!(c.get_pixel(0, 1), GREY);
    assert_eq!(c.get_pixel(2, 3), RED);
    assert_eq!(c.get_pixel(3, 3), GREY);
    c.draw_marker(-2, -2, 3, BLACK);
    assert_eq!(c.get_pixel(0, 0), BLACK);
    assert_eq!(c.get_pixel(1, 0), GREY);
    assert_eq!(c.get_pixel(1, 1), GREY);
    c.draw_marker(100, -50, 3, BLACK);
    assert_eq!(c.as_bytes().len(), 400);
}

#[test]
fn markers_for_several_centres() {
    let mut c = Canvas::filled(30, 10, GREY);
    c.draw_markers(&vec![(3, 3), (25, 5)], 1, RED);
    assert_eq!(c.get_pixel(3, 3), RED);
    assert_eq!(c.get_pixel(4, 3), RED);
    assert_eq!(c.get_pixel(4, 4), GREY);
    assert_eq!(c.get_pixel(25, 6), RED);
    assert_eq!(c.get_pixel(15, 5), GREY);
}

#[test]
fn channel_blend_formula() {
    assert_eq!(blend_channel(0, 220, 255), 0);
    assert_eq!(blend_channel(0, 220, 0), 220);
    assert_eq!(blend_channel(0, 220, 128), 109);
    assert_eq!(blend_channel(255, 0, 51), 51);
    assert_eq!(blend_channel(100, 200, 100), 160);
}

#[test]
fn blend_makes_the_pixel_opaque() {
    let dst = Color { r: 10, g: 20, b: 30, a: 0 };
    let out = blend(dst, RED, 255);
    assert_eq!(out, Color { r: 255, g: 0, b: 0, a: 255 });
    let half = blend(dst, BLACK, 0);
    assert_eq!(half, Color { r: 10, g: 20, b: 30, a: 255 });
}

#[test]
fn coverage_needs_one_value_per_pixel() {
    assert!(Coverage::new(2, 3, vec![0; 6]).is_some());
    assert!(Coverage::new(2, 3, vec![0; 5]).is_none());
    assert!(Coverage::new(0, 7, Vec::new()).is_some());
    assert!(Coverage::new(u32::MAX, u32::MAX, vec![0; 4]).is_none());
}

#[test]
fn coverage_is_blended_and_clipped_per_pixel() {
    let mut c = Canvas::filled(4, 4, GREY);
    let mask = Coverage::new(2, 2, vec![255, 128, 0, 255]).unwrap();
    c.composite_coverage(&mask, 3, -1, BLACK);
    // Only mask pixel (0, 1) lands on the canvas, at (3, 0).
    assert_eq!(c.get_pixel(3, 0), Color { r: 220, g: 220, b: 220, a: 255 });
    let mut d = Canvas::filled(4, 4, GREY);
    d.composite_coverage(&mask, 1, 1, BLACK);
    assert_eq!(d.get_pixel(1, 1), BLACK);
    assert_eq!(d.get_pixel(2, 1), Color { r: 109, g: 109, b: 109, a: 255 });
    assert_eq!(d.get_pixel(1, 2), GREY);
    assert_eq!(d.get_pixel(2, 2), BLACK);
    assert_eq!(d.get_pixel(0, 0), GREY);
}

#[test]
fn bytes_round_trip() {
    let c = Canvas::filled(2, 2, RED);
    let bytes = c.into_bytes();
    let back = Canvas::from_bytes(2, 2, bytes.clone()).unwrap();
    assert_eq!(back.as_bytes(), &bytes);
    assert!(Canvas::from_bytes(2, 2, vec![0; 15]).is_none());
    assert!(Canvas::from_bytes(u32::MAX, u32::MAX, vec![0; 16]).is_none());
}

#[test]
fn circle_outline_is_drawn() {
    let mut c = Canvas::filled(21, 21, GREY);
    let blue = Color { r: 0, g: 0, b: 255, a: 255 };
    c.draw_circle_outline(10, 10, 5, blue);
    assert_eq!(c.get_pixel(15, 10), blue);
    assert_eq!(c.get_pixel(10, 5), blue);
    assert_eq!(c.get_pixel(10, 10), GREY);
    let mut edge = Canvas::filled(8, 8, GREY);
    edge.draw_circle_outline(0, 0, 5, blue);
    assert_eq!(edge.get_pixel(5, 0), blue);
    assert_eq!(edge.get_pixel(0, 5), blue);
}

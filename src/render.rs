//! The rendering style and the layers that precede the polygon's edges.
use vstd::prelude::*;
use crate::canvas::{hollow_circle_of, uniform_bytes, Canvas, Color};
use crate::geometry::{canvas_side, canvas_side_spec};

verus! {

/// Colors and sizes used to draw a polygon.
#[derive(Clone, Copy, Debug)]
pub struct RenderStyle {
    pub background: Color,
    pub circle: Color,
    pub edge: Color,
    pub marker: Color,
    pub marker_radius: u32,
    pub label: Color,
    pub label_scale: u32,
}

/// The largest diameter, in pixels, whose circle fits `i32` coordinates.
pub const MAX_DIAMETER: u32 = 0x1000_0000;

/// Pixels that the labels are moved right of their vertex.
pub const LABEL_DX: i64 = 6;

/// Pixels that the labels are moved up from their vertex.
pub const LABEL_DY: i64 = 12;

impl RenderStyle {
    /// Light grey ground, blue circle, black edges and labels, red markers of
    /// radius 3, labels at scale 18.
    pub fn reference() -> (r: RenderStyle)
        ensures
            r.background == (Color { r: 220, g: 220, b: 220, a: 255 }),
            r.circle == (Color { r: 0, g: 0, b: 255, a: 255 }),
            r.edge == (Color { r: 0, g: 0, b: 0, a: 255 }),
            r.marker == (Color { r: 255, g: 0, b: 0, a: 255 }),
            r.marker_radius == 3,
            r.label == (Color { r: 0, g: 0, b: 0, a: 255 }),
            r.label_scale == 18,
    {
        RenderStyle {
            background: Color { r: 220, g: 220, b: 220, a: 255 },
            circle: Color { r: 0, g: 0, b: 255, a: 255 },
            edge: Color { r: 0, g: 0, b: 0, a: 255 },
            marker: Color { r: 255, g: 0, b: 0, a: 255 },
            marker_radius: 3,
            label: Color { r: 0, g: 0, b: 0, a: 255 },
            label_scale: 18,
        }
    }
}

/// The radius, in whole pixels, of the circle of `diameter` pixels (halves up).
pub open spec fn circle_radius(diameter: nat) -> nat {
    (diameter + 1) / 2
}

/// The square canvas for a circle of `diameter` pixels: filled with the
/// background, then the circle's outline around the centre in the circle color.
pub fn base_layer(diameter: u32, style: &RenderStyle) -> (r: Canvas)
    requires
        diameter <= MAX_DIAMETER,
        4 * (canvas_side_spec(diameter as nat) as int) * (canvas_side_spec(diameter as nat) as int)
            <= usize::MAX,
    ensures
        r.wf(),
        r.spec_width() == canvas_side_spec(diameter as nat),
        r.spec_height() == canvas_side_spec(diameter as nat),
        r.bytes() == hollow_circle_of(
            uniform_bytes(
                4 * (canvas_side_spec(diameter as nat) as int) * (canvas_side_spec(
                    diameter as nat,
                ) as int),
                style.background,
            ),
            canvas_side_spec(diameter as nat) as u32,
            canvas_side_spec(diameter as nat) as u32,
            (canvas_side_spec(diameter as nat) / 2) as i32,
            (canvas_side_spec(diameter as nat) / 2) as i32,
            circle_radius(diameter as nat) as i32,
            seq![style.circle.r, style.circle.g, style.circle.b, style.circle.a],
        ),
        forall|x: int, y: int|
            r.in_bounds(x, y) ==> #[trigger] r.pixel(x, y) == style.background || r.pixel(x, y)
                == style.circle,
{
    let side: u32 = canvas_side(diameter);
    let mut c: Canvas = Canvas::filled(side, side, style.background);
    let centre: i32 = (side / 2) as i32;
    let radius: i32 = ((diameter / 2) + (diameter % 2)) as i32;
    c.draw_circle_outline(centre, centre, radius, style.circle);
    c
}

} // verus!

//! A square or rectangular RGBA raster and the drawing operations on it.
use vstd::prelude::*;
use vstd::arithmetic::div_mod::{lemma_fundamental_div_mod, lemma_mod_bound};

verus! {

/// An RGBA color, eight bits per channel.
#[derive(Clone, Copy, Debug, PartialEq, Eq, Structural)]
pub struct Color {
    pub r: u8,
    pub g: u8,
    pub b: u8,
    pub a: u8,
}

impl Color {
    /// Channel `ch` of the color, in RGBA order.
    pub open spec fn channel(self, ch: int) -> u8 {
        if ch == 0 {
            self.r
        } else if ch == 1 {
            self.g
        } else if ch == 2 {
            self.b
        } else {
            self.a
        }
    }
}

/// Byte offset of pixel `(x, y)` in a row-major RGBA buffer of the given width.
pub open spec fn pixel_offset(width: int, x: int, y: int) -> int {
    4 * (y * width + x)
}

/// The color stored at `(x, y)` of a row-major RGBA buffer.
pub open spec fn pixel_of(bytes: Seq<u8>, width: int, x: int, y: int) -> Color {
    let o = pixel_offset(width, x, y);
    Color { r: bytes[o], g: bytes[o + 1], b: bytes[o + 2], a: bytes[o + 3] }
}

/// `len` bytes that repeat the channels of `c`.
pub open spec fn uniform_bytes(len: int, c: Color) -> Seq<u8> {
    Seq::new(len as nat, |j: int| c.channel(j % 4))
}

/// Whether `(x, y)` lies in the closed disc of `radius` around `(cx, cy)`.
pub open spec fn in_disc(x: int, y: int, cx: int, cy: int, radius: int) -> bool {
    (x - cx) * (x - cx) + (y - cy) * (y - cy) <= radius * radius
}

/// `(src·alpha + dst·(255 − alpha)) / 255`, the "over" blend of one channel.
pub open spec fn blend_channel_spec(src: u8, dst: u8, alpha: u8) -> int {
    (src * alpha + dst * (255 - alpha)) / 255
}

/// `src` laid over `dst` with coverage `alpha`; the result is opaque.
pub open spec fn blend_spec(dst: Color, src: Color, alpha: u8) -> Color {
    Color {
        r: blend_channel_spec(src.r, dst.r, alpha) as u8,
        g: blend_channel_spec(src.g, dst.g, alpha) as u8,
        b: blend_channel_spec(src.b, dst.b, alpha) as u8,
        a: 255,
    }
}

proof fn lemma_offset_in_buffer(w: int, h: int, x: int, y: int)
    requires
        0 <= x < w,
        0 <= y < h,
    ensures
        0 <= y * w,
        0 <= pixel_offset(w, x, y),
        pixel_offset(w, x, y) + 4 <= 4 * w * h,
{
    assert(0 <= y * w) by (nonlinear_arith)
        requires
            0 <= x < w,
            0 <= y < h,
    ;
    assert(0 <= y * w + x) by (nonlinear_arith)
        requires
            0 <= x < w,
            0 <= y < h,
    ;
    assert(y * w + x + 1 <= w * h) by (nonlinear_arith)
        requires
            0 <= x < w,
            0 <= y < h,
    ;
    assert(4 * w * h == 4 * (w * h)) by (nonlinear_arith);
}

proof fn lemma_offsets_apart(w: int, x1: int, y1: int, x2: int, y2: int)
    requires
        0 <= x1 < w,
        0 <= x2 < w,
        0 <= y1,
        0 <= y2,
        x1 != x2 || y1 != y2,
    ensures
        pixel_offset(w, x1, y1) + 4 <= pixel_offset(w, x2, y2) || pixel_offset(w, x2, y2) + 4
            <= pixel_offset(w, x1, y1),
{
    if y1 < y2 {
        assert(y1 * w + x1 + 1 <= y2 * w + x2) by (nonlinear_arith)
            requires
                0 <= x1 < w,
                0 <= x2,
                y1 < y2,
        ;
    } else if y2 < y1 {
        assert(y2 * w + x2 + 1 <= y1 * w + x1) by (nonlinear_arith)
            requires
                0 <= x2 < w,
                0 <= x1,
                y2 < y1,
        ;
    }
}

proof fn lemma_disc_box(x: int, y: int, cx: int, cy: int, radius: int)
    requires
        radius >= 0,
        in_disc(x, y, cx, cy, radius),
    ensures
        -radius <= x - cx <= radius,
        -radius <= y - cy <= radius,
{
    let a = x - cx;
    let b = y - cy;
    assert(a * a <= radius * radius && b * b <= radius * radius) by (nonlinear_arith)
        requires
            a * a + b * b <= radius * radius,
    ;
    assert(-radius <= a <= radius) by (nonlinear_arith)
        requires
            a * a <= radius * radius,
            radius >= 0,
    ;
    assert(-radius <= b <= radius) by (nonlinear_arith)
        requires
            b * b <= radius * radius,
            radius >= 0,
    ;
}

/// Whether `(x, y)` lies in the disc of `radius` around one of the first `n`
/// centres.
pub open spec fn covered_by(centres: Seq<(i64, i64)>, n: int, x: int, y: int, radius: int) -> bool {
    exists|k: int| 0 <= k < n && #[trigger] in_disc(x, y, centres[k].0 as int, centres[k].1 as int, radius)
}

/// A coverage mask: one opacity byte per pixel, row-major.
pub struct Coverage {
    width: u32,
    height: u32,
    values: Vec<u8>,
}

impl Coverage {
    pub closed spec fn spec_width(&self) -> nat {
        self.width as nat
    }

    pub closed spec fn spec_height(&self) -> nat {
        self.height as nat
    }

    /// One value for each pixel.
    pub closed spec fn wf(&self) -> bool {
        self.values@.len() == (self.width as int) * (self.height as int)
    }

    pub open spec fn contains(&self, x: int, y: int) -> bool {
        0 <= x < self.spec_width() && 0 <= y < self.spec_height()
    }

    /// The opacity at `(x, y)`.
    pub closed spec fn at(&self, x: int, y: int) -> u8 {
        self.values@[y * (self.width as int) + x]
    }

    /// A mask of `width × height` values given row by row; `None` when the
    /// number of values is not `width · height`.
    pub fn new(width: u32, height: u32, values: Vec<u8>) -> (r: Option<Coverage>)
        ensures
            r is Some <==> values@.len() == (width as int) * (height as int),
            r matches Some(m) ==> m.wf() && m.spec_width() == width && m.spec_height() == height
                && forall|x: int, y: int|
                m.contains(x, y) ==> #[trigger] m.at(x, y) == values@[y * (width as int) + x],
    {
        let n: usize = values.len();
        let w: u64 = width as u64;
        let h: u64 = height as u64;
        if h != 0 && w > (n as u64) / h {
            assert(w * h > n) by (nonlinear_arith)
                requires
                    h > 0,
                    w > (n as u64) / h,
                    n >= 0,
            ;
            None
        } else {
            assert(w * h <= n) by (nonlinear_arith)
                requires
                    h == 0 || w <= (n as u64) / h,
                    n >= 0,
            ;
            if w * h != n as u64 {
                None
            } else {
                Some(Coverage { width, height, values })
            }
        }
    }

    pub fn width(&self) -> (r: u32)
        ensures
            r == self.spec_width(),
    {
        self.width
    }

    pub fn height(&self) -> (r: u32)
        ensures
            r == self.spec_height(),
    {
        self.height
    }

    /// The opacity at `(x, y)`.
    pub fn get(&self, x: u32, y: u32) -> (r: u8)
        requires
            self.wf(),
            self.contains(x as int, y as int),
        ensures
            r == self.at(x as int, y as int),
    {
        let ghost w = self.width as int;
        let ghost h = self.height as int;
        assert(0 <= y * w + x < w * h) by (nonlinear_arith)
            requires
                0 <= x < w,
                0 <= y < h,
        ;
        // The length of a vector fits in `usize`, so the offsets below do too.
        let _len: usize = self.values.len();
        self.values[(y as usize) * (self.width as usize) + (x as usize)]
    }
}

/// One channel of `src` laid over `dst` with coverage `alpha`.
pub fn blend_channel(src: u8, dst: u8, alpha: u8) -> (r: u8)
    ensures
        r as int == blend_channel_spec(src, dst, alpha),
{
    let s: u32 = src as u32;
    let d: u32 = dst as u32;
    let a: u32 = alpha as u32;
    assert(s * a + d * (255 - a) <= 255 * 255) by (nonlinear_arith)
        requires
            s <= 255,
            d <= 255,
            a <= 255,
    ;
    ((s * a + d * (255 - a)) / 255) as u8
}

/// `src` laid over `dst` with coverage `alpha`, channel by channel; the result
/// is opaque.
pub fn blend(dst: Color, src: Color, alpha: u8) -> (r: Color)
    ensures
        r == blend_spec(dst, src, alpha),
{
    Color {
        r: blend_channel(src.r, dst.r, alpha),
        g: blend_channel(src.g, dst.g, alpha),
        b: blend_channel(src.b, dst.b, alpha),
        a: 255,
    }
}

/// The buffer that imageproc's midpoint circle outline leaves behind when
/// drawn on a row-major RGBA buffer.
pub uninterp spec fn hollow_circle_of(
    pixels: Seq<u8>,
    width: u32,
    height: u32,
    cx: i32,
    cy: i32,
    radius: i32,
    rgba: Seq<u8>,
) -> Seq<u8>;

/// The four bytes of pixel number `p` in a row-major RGBA buffer.
pub open spec fn pixel_bytes(s: Seq<u8>, p: int) -> Seq<u8> {
    s.subrange(4 * p, 4 * p + 4)
}

/// Relies on image's `RgbaImage::from_raw` (accepts a buffer of four bytes per
/// pixel), imageproc's `draw_hollow_circle_mut` (writes `rgba` to the in-bounds
/// points of a midpoint circle, nothing else) and `into_raw` (hands the buffer
/// back).
#[verifier::external_body]
fn hollow_circle(
    pixels: Vec<u8>,
    width: u32,
    height: u32,
    cx: i32,
    cy: i32,
    radius: i32,
    rgba: [u8; 4],
) -> (r: Vec<u8>)
    requires
        pixels@.len() == 4 * (width as int) * (height as int),
        0 <= cx <= 0x4000_0000,
        0 <= cy <= 0x4000_0000,
        0 <= radius <= 0x2000_0000,
    ensures
        r@ == hollow_circle_of(pixels@, width, height, cx, cy, radius, rgba@),
        r@.len() == pixels@.len(),
        forall|p: int|
            0 <= p < (width as int) * (height as int) ==> #[trigger] pixel_bytes(r@, p)
                == pixel_bytes(pixels@, p) || pixel_bytes(r@, p) == rgba@,
{
    match image::RgbaImage::from_raw(width, height, pixels) {
        Some(mut img) => {
            imageproc::drawing::draw_hollow_circle_mut(&mut img, (cx, cy), radius, image::Rgba(rgba));
            img.into_raw()
        },
        None => Vec::new(),
    }
}

/// A raster of `width × height` pixels, stored row-major, four bytes (RGBA)
/// per pixel.
pub struct Canvas {
    width: u32,
    height: u32,
    pixels: Vec<u8>,
}

impl Canvas {
    pub closed spec fn spec_width(&self) -> nat {
        self.width as nat
    }

    pub closed spec fn spec_height(&self) -> nat {
        self.height as nat
    }

    /// The buffer holds exactly four bytes for each pixel.
    pub closed spec fn wf(&self) -> bool {
        self.pixels@.len() == 4 * (self.width as int) * (self.height as int)
    }

    /// The raw bytes, row-major RGBA.
    pub closed spec fn bytes(&self) -> Seq<u8> {
        self.pixels@
    }

    pub open spec fn in_bounds(&self, x: int, y: int) -> bool {
        0 <= x < self.spec_width() && 0 <= y < self.spec_height()
    }

    /// The color at `(x, y)`.
    pub open spec fn pixel(&self, x: int, y: int) -> Color {
        pixel_of(self.bytes(), self.spec_width() as int, x, y)
    }

    /// Same dimensions, and still well formed.
    pub open spec fn same_frame(&self, other: &Canvas) -> bool {
        self.wf() && self.spec_width() == other.spec_width() && self.spec_height()
            == other.spec_height()
    }

    pub fn width(&self) -> (r: u32)
        ensures
            r == self.spec_width(),
    {
        self.width
    }

    pub fn height(&self) -> (r: u32)
        ensures
            r == self.spec_height(),
    {
        self.height
    }

    /// The raw row-major RGBA bytes.
    pub fn as_bytes(&self) -> (r: &Vec<u8>)
        ensures
            r@ == self.bytes(),
    {
        &self.pixels
    }

    /// A canvas over `bytes`, row-major RGBA; `None` when there are not
    /// exactly four bytes for each of the `width × height` pixels.
    pub fn from_bytes(width: u32, height: u32, bytes: Vec<u8>) -> (r: Option<Canvas>)
        ensures
            r is Some <==> bytes@.len() == 4 * (width as int) * (height as int),
            r matches Some(c) ==> c.wf() && c.spec_width() == width && c.spec_height() == height
                && c.bytes() == bytes@,
    {
        let n: usize = bytes.len();
        let w: u64 = width as u64;
        let h: u64 = height as u64;
        if h != 0 && w > (n as u64) / 4 / h {
            assert(4 * w * h > n) by (nonlinear_arith)
                requires
                    h > 0,
                    w > (n as u64) / 4 / h,
                    n >= 0,
            ;
            None
        } else {
            assert(4 * w * h <= n) by (nonlinear_arith)
                requires
                    h == 0 || w <= (n as u64) / 4 / h,
                    n >= 0,
            ;
            if 4 * w * h != n as u64 {
                None
            } else {
                Some(Canvas { width, height, pixels: bytes })
            }
        }
    }

    /// The raw row-major RGBA bytes, taking the canvas.
    pub fn into_bytes(self) -> (r: Vec<u8>)
        ensures
            r@ == self.bytes(),
    {
        self.pixels
    }

    /// A canvas of `width × height` pixels, each of color `c`.
    pub fn filled(width: u32, height: u32, c: Color) -> (r: Canvas)
        requires
            4 * (width as int) * (height as int) <= usize::MAX,
        ensures
            r.wf(),
            r.spec_width() == width,
            r.spec_height() == height,
            r.bytes() == uniform_bytes(4 * (width as int) * (height as int), c),
            forall|x: int, y: int| r.in_bounds(x, y) ==> #[trigger] r.pixel(x, y) == c,
    {
        let ghost w = width as int;
        let ghost h = height as int;
        assert(4 * w * h == 4 * (w * h)) by (nonlinear_arith);
        let count: usize = (width as usize) * (height as usize);
        let mut pixels: Vec<u8> = Vec::new();
        let mut k: usize = 0;
        while k < count
            invariant
                k <= count,
                count == w * h,
                4 * count <= usize::MAX,
                pixels@.len() == 4 * k,
                forall|j: int| 0 <= j < pixels@.len() ==> #[trigger] pixels@[j] == c.channel(j % 4),
            decreases count - k,
        {
            let ghost before = pixels@;
            pixels.push(c.r);
            pixels.push(c.g);
            pixels.push(c.b);
            pixels.push(c.a);
            assert forall|j: int| 0 <= j < pixels@.len() implies #[trigger] pixels@[j] == c.channel(
                j % 4,
            ) by {
                if j >= 4 * k {
                    assert(j % 4 == j - 4 * k) by (nonlinear_arith)
                        requires
                            4 * k <= j < 4 * k + 4,
                    ;
                } else {
                    assert(pixels@[j] == before[j]);
                }
            }
            k = k + 1;
        }
        let r = Canvas { width, height, pixels };
        assert(r.bytes() =~= uniform_bytes(4 * w * h, c));
        assert forall|x: int, y: int| r.in_bounds(x, y) implies #[trigger] r.pixel(x, y) == c by {
            lemma_offset_in_buffer(w, h, x, y);
            let o = pixel_offset(w, x, y);
            assert(o % 4 == 0 && (o + 1) % 4 == 1 && (o + 2) % 4 == 2 && (o + 3) % 4 == 3)
                by (nonlinear_arith)
                requires
                    o == 4 * (y * w + x),
            ;
        }
        r
    }

    /// The color at `(x, y)`.
    pub fn get_pixel(&self, x: u32, y: u32) -> (r: Color)
        requires
            self.wf(),
            self.in_bounds(x as int, y as int),
        ensures
            r == self.pixel(x as int, y as int),
    {
        proof {
            lemma_offset_in_buffer(self.width as int, self.height as int, x as int, y as int);
        }
        // The length of a vector fits in `usize`, so the offsets below do too.
        let _len: usize = self.pixels.len();
        let o: usize = 4 * ((y as usize) * (self.width as usize) + (x as usize));
        Color {
            r: self.pixels[o],
            g: self.pixels[o + 1],
            b: self.pixels[o + 2],
            a: self.pixels[o + 3],
        }
    }

    /// Paints the filled disc of `radius` around `(cx, cy)` with `c`; pixels of
    /// the disc outside the canvas are dropped.
    pub fn draw_marker(&mut self, cx: i64, cy: i64, radius: u32, c: Color)
        requires
            old(self).wf(),
            radius <= 0x8000,
            -0x100_0000_0000 <= cx <= 0x100_0000_0000,
            -0x100_0000_0000 <= cy <= 0x100_0000_0000,
        ensures
            final(self).same_frame(old(self)),
            forall|x: int, y: int|
                final(self).in_bounds(x, y) ==> #[trigger] final(self).pixel(x, y) == if in_disc(
                    x,
                    y,
                    cx as int,
                    cy as int,
                    radius as int,
                ) {
                    c
                } else {
                    old(self).pixel(x, y)
                },
    {
        let ghost orig = *self;
        let r: i64 = radius as i64;
        assert(r * r <= 0x8000 * 0x8000) by (nonlinear_arith)
            requires
                0 <= r <= 0x8000,
        ;
        let rr: i64 = r * r;
        let w: i64 = self.width as i64;
        let h: i64 = self.height as i64;
        let mut dy: i64 = -r;
        assert forall|x: int, y: int| self.in_bounds(x, y) implies #[trigger] self.pixel(x, y)
            == if in_disc(x, y, cx as int, cy as int, r as int) && y - cy < dy {
            c
        } else {
            orig.pixel(x, y)
        } by {
            if in_disc(x, y, cx as int, cy as int, r as int) {
                lemma_disc_box(x, y, cx as int, cy as int, r as int);
            }
        }
        while dy <= r
            invariant
                -r <= dy <= r + 1,
                r == radius,
                radius <= 0x8000,
                rr == r * r,
                w == orig.spec_width(),
                h == orig.spec_height(),
                self.same_frame(&orig),
                orig.wf(),
                -0x100_0000_0000 <= cx <= 0x100_0000_0000,
                -0x100_0000_0000 <= cy <= 0x100_0000_0000,
                forall|x: int, y: int|
                    self.in_bounds(x, y) ==> #[trigger] self.pixel(x, y) == if in_disc(
                        x,
                        y,
                        cx as int,
                        cy as int,
                        r as int,
                    ) && y - cy < dy {
                        c
                    } else {
                        orig.pixel(x, y)
                    },
            decreases r + 1 - dy,
        {
            let mut dx: i64 = -r;
            assert forall|x: int, y: int| self.in_bounds(x, y) implies #[trigger] self.pixel(
                x,
                y,
            ) == if in_disc(x, y, cx as int, cy as int, r as int) && (y - cy < dy || (y - cy == dy
                && x - cx < dx)) {
                c
            } else {
                orig.pixel(x, y)
            } by {
                if in_disc(x, y, cx as int, cy as int, r as int) {
                    lemma_disc_box(x, y, cx as int, cy as int, r as int);
                }
            }
            while dx <= r
                invariant
                    -r <= dy <= r,
                    -r <= dx <= r + 1,
                    r == radius,
                    radius <= 0x8000,
                    rr == r * r,
                    w == orig.spec_width(),
                    h == orig.spec_height(),
                    self.same_frame(&orig),
                    orig.wf(),
                    -0x100_0000_0000 <= cx <= 0x100_0000_0000,
                    -0x100_0000_0000 <= cy <= 0x100_0000_0000,
                    forall|x: int, y: int|
                        self.in_bounds(x, y) ==> #[trigger] self.pixel(x, y) == if in_disc(
                            x,
                            y,
                            cx as int,
                            cy as int,
                            r as int,
                        ) && (y - cy < dy || (y - cy == dy && x - cx < dx)) {
                            c
                        } else {
                            orig.pixel(x, y)
                        },
                decreases r + 1 - dx,
            {
                assert(0 <= dx * dx <= 0x8000 * 0x8000 && 0 <= dy * dy <= 0x8000 * 0x8000)
                    by (nonlinear_arith)
                    requires
                        -0x8000 <= dx <= 0x8000,
                        -0x8000 <= dy <= 0x8000,
                ;
                assert(r * r <= 0x8000 * 0x8000) by (nonlinear_arith)
                    requires
                        0 <= r <= 0x8000,
                ;
                let ghost before = *self;
                let xx: i64 = cx + dx;
                let yy: i64 = cy + dy;
                if dx * dx + dy * dy <= rr && 0 <= xx && xx < w && 0 <= yy && yy < h {
                    self.put_pixel(xx as u32, yy as u32, c);
                }
                assert forall|x: int, y: int| self.in_bounds(x, y) implies #[trigger] self.pixel(
                    x,
                    y,
                ) == if in_disc(x, y, cx as int, cy as int, r as int) && (y - cy < dy || (y - cy
                    == dy && x - cx < dx + 1)) {
                    c
                } else {
                    orig.pixel(x, y)
                } by {
                    assert(before.in_bounds(x, y));
                    assert(before.pixel(x, y) == if in_disc(x, y, cx as int, cy as int, r as int)
                        && (y - cy < dy || (y - cy == dy && x - cx < dx)) {
                        c
                    } else {
                        orig.pixel(x, y)
                    });
                }
                dx = dx + 1;
            }
            assert forall|x: int, y: int| self.in_bounds(x, y) implies #[trigger] self.pixel(x, y)
                == if in_disc(x, y, cx as int, cy as int, r as int) && y - cy < dy + 1 {
                c
            } else {
                orig.pixel(x, y)
            } by {
                if in_disc(x, y, cx as int, cy as int, r as int) {
                    lemma_disc_box(x, y, cx as int, cy as int, r as int);
                }
            }
            dy = dy + 1;
        }
        assert forall|x: int, y: int| self.in_bounds(x, y) implies #[trigger] self.pixel(x, y)
            == if in_disc(x, y, cx as int, cy as int, radius as int) {
            c
        } else {
            orig.pixel(x, y)
        } by {
            if in_disc(x, y, cx as int, cy as int, r as int) {
                lemma_disc_box(x, y, cx as int, cy as int, r as int);
            }
        }
    }

    /// Paints a marker of `radius` around each of `centres` with `c`.
    pub fn draw_markers(&mut self, centres: &Vec<(i64, i64)>, radius: u32, c: Color)
        requires
            old(self).wf(),
            radius <= 0x8000,
            forall|k: int|
                0 <= k < centres@.len() ==> -0x100_0000_0000 <= #[trigger] centres@[k].0
                    <= 0x100_0000_0000 && -0x100_0000_0000 <= centres@[k].1 <= 0x100_0000_0000,
        ensures
            final(self).same_frame(old(self)),
            forall|x: int, y: int|
                final(self).in_bounds(x, y) ==> #[trigger] final(self).pixel(x, y) == if covered_by(
                    centres@,
                    centres@.len() as int,
                    x,
                    y,
                    radius as int,
                ) {
                    c
                } else {
                    old(self).pixel(x, y)
                },
    {
        let ghost orig = *self;
        let mut k: usize = 0;
        while k < centres.len()
            invariant
                k <= centres@.len(),
                radius <= 0x8000,
                forall|j: int|
                    0 <= j < centres@.len() ==> -0x100_0000_0000 <= #[trigger] centres@[j].0
                        <= 0x100_0000_0000 && -0x100_0000_0000 <= centres@[j].1 <= 0x100_0000_0000,
                self.same_frame(&orig),
                orig.wf(),
                forall|x: int, y: int|
                    self.in_bounds(x, y) ==> #[trigger] self.pixel(x, y) == if covered_by(
                        centres@,
                        k as int,
                        x,
                        y,
                        radius as int,
                    ) {
                        c
                    } else {
                        orig.pixel(x, y)
                    },
            decreases centres@.len() - k,
        {
            let (cx, cy) = centres[k];
            let ghost before = *self;
            self.draw_marker(cx, cy, radius, c);
            assert forall|x: int, y: int| self.in_bounds(x, y) implies #[trigger] self.pixel(x, y)
                == if covered_by(centres@, k + 1, x, y, radius as int) {
                c
            } else {
                orig.pixel(x, y)
            } by {
                assert(before.in_bounds(x, y));
                if in_disc(x, y, cx as int, cy as int, radius as int) {
                    assert(in_disc(
                        x,
                        y,
                        centres@[k as int].0 as int,
                        centres@[k as int].1 as int,
                        radius as int,
                    ));
                } else if covered_by(centres@, k + 1, x, y, radius as int) {
                    let j = choose|j: int|
                        0 <= j < k + 1 && #[trigger] in_disc(
                            x,
                            y,
                            centres@[j].0 as int,
                            centres@[j].1 as int,
                            radius as int,
                        );
                    assert(j != k);
                }
            }
            k = k + 1;
        }
    }

    /// Lays `c` over the canvas through `mask`, whose top-left corner goes to
    /// `(x, y)`: each covered pixel is blended with the mask's opacity as alpha
    /// and becomes opaque; mask pixels outside the canvas are dropped one by one.
    pub fn composite_coverage(&mut self, mask: &Coverage, x: i64, y: i64, c: Color)
        requires
            old(self).wf(),
            mask.wf(),
            -0x100_0000_0000 <= x <= 0x100_0000_0000,
            -0x100_0000_0000 <= y <= 0x100_0000_0000,
        ensures
            final(self).same_frame(old(self)),
            forall|px: int, py: int|
                final(self).in_bounds(px, py) ==> #[trigger] final(self).pixel(px, py) == if mask.contains(
                    px - x,
                    py - y,
                ) {
                    blend_spec(old(self).pixel(px, py), c, mask.at(px - x, py - y))
                } else {
                    old(self).pixel(px, py)
                },
    {
        let ghost orig = *self;
        let mw: u32 = mask.width();
        let mh: u32 = mask.height();
        let w: i64 = self.width as i64;
        let h: i64 = self.height as i64;
        let mut my: u32 = 0;
        while my < mh
            invariant
                my <= mh,
                mw == mask.spec_width(),
                mh == mask.spec_height(),
                mask.wf(),
                w == orig.spec_width(),
                h == orig.spec_height(),
                self.same_frame(&orig),
                orig.wf(),
                -0x100_0000_0000 <= x <= 0x100_0000_0000,
                -0x100_0000_0000 <= y <= 0x100_0000_0000,
                forall|px: int, py: int|
                    self.in_bounds(px, py) ==> #[trigger] self.pixel(px, py) == if mask.contains(
                        px - x,
                        py - y,
                    ) && py - y < my {
                        blend_spec(orig.pixel(px, py), c, mask.at(px - x, py - y))
                    } else {
                        orig.pixel(px, py)
                    },
            decreases mh - my,
        {
            let mut mx: u32 = 0;
            while mx < mw
                invariant
                    my < mh,
                    mx <= mw,
                    mw == mask.spec_width(),
                    mh == mask.spec_height(),
                    mask.wf(),
                    w == orig.spec_width(),
                    h == orig.spec_height(),
                    self.same_frame(&orig),
                    orig.wf(),
                    -0x100_0000_0000 <= x <= 0x100_0000_0000,
                    -0x100_0000_0000 <= y <= 0x100_0000_0000,
                    forall|px: int, py: int|
                        self.in_bounds(px, py) ==> #[trigger] self.pixel(px, py) == if mask.contains(
                            px - x,
                            py - y,
                        ) && (py - y < my || (py - y == my && px - x < mx)) {
                            blend_spec(orig.pixel(px, py), c, mask.at(px - x, py - y))
                        } else {
                            orig.pixel(px, py)
                        },
                decreases mw - mx,
            {
                let ghost before = *self;
                let tx: i64 = x + mx as i64;
                let ty: i64 = y + my as i64;
                if 0 <= tx && tx < w && 0 <= ty && ty < h {
                    let alpha: u8 = mask.get(mx, my);
                    let dst: Color = self.get_pixel(tx as u32, ty as u32);
                    let out: Color = blend(dst, c, alpha);
                    self.put_pixel(tx as u32, ty as u32, out);
                }
                assert forall|px: int, py: int| self.in_bounds(px, py) implies #[trigger] self.pixel(
                    px,
                    py,
                ) == if mask.contains(px - x, py - y) && (py - y < my || (py - y == my && px - x
                    < mx + 1)) {
                    blend_spec(orig.pixel(px, py), c, mask.at(px - x, py - y))
                } else {
                    orig.pixel(px, py)
                } by {
                    assert(before.in_bounds(px, py));
                    assert(before.pixel(px, py) == if mask.contains(px - x, py - y) && (py - y < my
                        || (py - y == my && px - x < mx)) {
                        blend_spec(orig.pixel(px, py), c, mask.at(px - x, py - y))
                    } else {
                        orig.pixel(px, py)
                    });
                }
                mx = mx + 1;
            }
            my = my + 1;
        }
    }

    /// Draws the outline of the circle of `radius` around `(cx, cy)` in `c`
    /// with imageproc's midpoint algorithm; points outside the canvas are
    /// dropped and every pixel either keeps its color or takes `c`.
    pub fn draw_circle_outline(&mut self, cx: i32, cy: i32, radius: i32, c: Color)
        requires
            old(self).wf(),
            0 <= cx <= 0x4000_0000,
            0 <= cy <= 0x4000_0000,
            0 <= radius <= 0x2000_0000,
        ensures
            final(self).same_frame(old(self)),
            final(self).bytes() == hollow_circle_of(
                old(self).bytes(),
                old(self).spec_width() as u32,
                old(self).spec_height() as u32,
                cx,
                cy,
                radius,
                seq![c.r, c.g, c.b, c.a],
            ),
            forall|x: int, y: int|
                final(self).in_bounds(x, y) ==> #[trigger] final(self).pixel(x, y) == old(
                    self,
                ).pixel(x, y) || final(self).pixel(x, y) == c,
    {
        let ghost orig = *self;
        let mut taken: Vec<u8> = Vec::new();
        std::mem::swap(&mut taken, &mut self.pixels);
        let rgba: [u8; 4] = [c.r, c.g, c.b, c.a];
        assert(rgba@ =~= seq![c.r, c.g, c.b, c.a]);
        let drawn: Vec<u8> = hollow_circle(taken, self.width, self.height, cx, cy, radius, rgba);
        self.pixels = drawn;
        assert forall|x: int, y: int| self.in_bounds(x, y) implies #[trigger] self.pixel(x, y)
            == orig.pixel(x, y) || self.pixel(x, y) == c by {
            let w = self.width as int;
            let h = self.height as int;
            lemma_offset_in_buffer(w, h, x, y);
            let p = y * w + x;
            assert(0 <= p < w * h) by (nonlinear_arith)
                requires
                    0 <= x < w,
                    0 <= y < h,
                    p == y * w + x,
            ;
            let a = pixel_bytes(self.pixels@, p);
            let b = pixel_bytes(orig.pixels@, p);
            assert(a[0] == self.pixels@[4 * p] && a[1] == self.pixels@[4 * p + 1] && a[2]
                == self.pixels@[4 * p + 2] && a[3] == self.pixels@[4 * p + 3]);
            assert(b[0] == orig.pixels@[4 * p] && b[1] == orig.pixels@[4 * p + 1] && b[2]
                == orig.pixels@[4 * p + 2] && b[3] == orig.pixels@[4 * p + 3]);
        }
    }

    /// Sets pixel `(x, y)` to `c` and leaves every other pixel as it was.
    pub fn put_pixel(&mut self, x: u32, y: u32, c: Color)
        requires
            old(self).wf(),
            old(self).in_bounds(x as int, y as int),
        ensures
            final(self).same_frame(old(self)),
            forall|px: int, py: int|
                final(self).in_bounds(px, py) ==> #[trigger] final(self).pixel(px, py) == if px
                    == x && py == y {
                    c
                } else {
                    old(self).pixel(px, py)
                },
    {
        let ghost w = self.width as int;
        let ghost h = self.height as int;
        let ghost before = self.pixels@;
        proof {
            lemma_offset_in_buffer(w, h, x as int, y as int);
        }
        // The length of a vector fits in `usize`, so the offsets below do too.
        let _len: usize = self.pixels.len();
        let o: usize = 4 * ((y as usize) * (self.width as usize) + (x as usize));
        self.pixels.set(o, c.r);
        self.pixels.set(o + 1, c.g);
        self.pixels.set(o + 2, c.b);
        self.pixels.set(o + 3, c.a);
        assert forall|px: int, py: int| self.in_bounds(px, py) implies #[trigger] self.pixel(px, py)
            == if px == x && py == y {
            c
        } else {
            pixel_of(before, w, px, py)
        } by {
            lemma_offset_in_buffer(w, h, px, py);
            if px != x || py != y {
                lemma_offsets_apart(w, px, py, x as int, y as int);
            }
        }
    }
}

/// Two well-formed canvases of the same size that agree on every pixel hold
/// the same bytes: what a drawing operation promises pixel by pixel fixes its
/// whole output.
pub proof fn lemma_pixels_determine_bytes(a: &Canvas, b: &Canvas)
    requires
        a.wf(),
        b.same_frame(a),
        forall|x: int, y: int| a.in_bounds(x, y) ==> #[trigger] a.pixel(x, y) == b.pixel(x, y),
    ensures
        a.bytes() == b.bytes(),
{
    let w = a.spec_width() as int;
    let h = a.spec_height() as int;
    assert forall|j: int| 0 <= j < a.bytes().len() implies a.bytes()[j] == b.bytes()[j] by {
        let p = j / 4;
        let ch = j % 4;
        let x = p % w;
        let y = p / w;
        lemma_fundamental_div_mod(j, 4);
        lemma_mod_bound(j, 4);
        assert(w > 0 && h > 0 && 0 <= p < w * h) by (nonlinear_arith)
            requires
                0 <= j < 4 * w * h,
                j == 4 * p + ch,
                0 <= ch < 4,
                w >= 0,
                h >= 0,
        ;
        lemma_fundamental_div_mod(p, w);
        lemma_mod_bound(p, w);
        assert(0 <= y < h) by (nonlinear_arith)
            requires
                p == w * y + x,
                0 <= x < w,
                0 <= p < w * h,
                w > 0,
        ;
        assert(a.in_bounds(x, y));
        assert(a.pixel(x, y) == b.pixel(x, y));
        assert(j == pixel_offset(w, x, y) + ch) by (nonlinear_arith)
            requires
                j == 4 * p + ch,
                p == w * y + x,
        ;
    }
    assert(a.bytes() =~= b.bytes());
}

} // verus!

//! Double-buffered pixel framebuffer: an off-screen shadow buffer that drawing
//! primitives mutate freely, and a model of the hardware surface that only an
//! explicit `apply` commit overwrites, in full, so a frame appears atomically.

use vstd::prelude::*;
use font8x8::UnicodeFonts;

verus! {

/// Width of the pixel surface.
pub const BUFFER_WIDTH: usize = 320;

/// Height of the pixel surface.
pub const BUFFER_HEIGHT: usize = 200;

/// Number of bytes in one full surface.
pub const BUFFER_AREA: usize = 64000;

/// The 16 fixed hardware color indices.
#[derive(Debug, Clone, Copy, PartialEq, Eq, Structural)]
pub enum Color {
    Black,
    Blue,
    Green,
    Cyan,
    Red,
    Magenta,
    Brown,
    LightGray,
    DarkGray,
    LightBlue,
    LightGreen,
    LightCyan,
    LightRed,
    Pink,
    Yellow,
    White,
}

impl Color {
    /// The hardware color index of this color.
    pub open spec fn code_spec(self) -> u8 {
        match self {
            Color::Black => 0,
            Color::Blue => 1,
            Color::Green => 2,
            Color::Cyan => 3,
            Color::Red => 4,
            Color::Magenta => 5,
            Color::Brown => 6,
            Color::LightGray => 7,
            Color::DarkGray => 8,
            Color::LightBlue => 9,
            Color::LightGreen => 10,
            Color::LightCyan => 11,
            Color::LightRed => 12,
            Color::Pink => 13,
            Color::Yellow => 14,
            Color::White => 15,
        }
    }

    /// The hardware color index of this color.
    #[verifier::when_used_as_spec(code_spec)]
    pub fn code(self) -> (v: u8)
        ensures
            v == self.code_spec(),
    {
        match self {
            Color::Black => 0,
            Color::Blue => 1,
            Color::Green => 2,
            Color::Cyan => 3,
            Color::Red => 4,
            Color::Magenta => 5,
            Color::Brown => 6,
            Color::LightGray => 7,
            Color::DarkGray => 8,
            Color::LightBlue => 9,
            Color::LightGreen => 10,
            Color::LightCyan => 11,
            Color::LightRed => 12,
            Color::Pink => 13,
            Color::Yellow => 14,
            Color::White => 15,
        }
    }
}

/// A full surface is well formed when it has exactly one byte per pixel.
pub open spec fn buf_wf(s: Seq<u8>) -> bool {
    s.len() == BUFFER_AREA
}

/// The pixel of a full surface at column `x`, row `y`.
pub open spec fn pix(s: Seq<u8>, x: int, y: int) -> u8 {
    s[y * 320 + x]
}

/// Whether `(x, y)` lies on the surface.
pub open spec fn in_screen(x: int, y: int) -> bool {
    0 <= x < 320 && 0 <= y < 200
}

/// Row-major addresses of distinct on-screen columns and rows are distinct.
proof fn lemma_coord_unique(x1: int, y1: int, x2: int, y2: int)
    requires
        0 <= x1 < 320,
        0 <= x2 < 320,
    ensures
        (y1 * 320 + x1 == y2 * 320 + x2) <==> (x1 == x2 && y1 == y2),
{
    assert((y1 * 320 + x1 == y2 * 320 + x2) <==> (x1 == x2 && y1 == y2)) by (nonlinear_arith)
        requires
            0 <= x1 < 320,
            0 <= x2 < 320,
    ;
}

/// The spec view of a captured raster.
#[verifier::ext_equal]
pub ghost struct BitmapView {
    pub width: nat,
    pub height: nat,
    pub data: Seq<u8>,
}

/// A captured rectangular raster: `data` holds `height` rows of `width`
/// bytes each, row-major.
pub struct Bitmap {
    pub data: Vec<u8>,
    pub height: usize,
    pub width: usize,
}

impl View for Bitmap {
    type V = BitmapView;

    open spec fn view(&self) -> BitmapView {
        BitmapView { width: self.width as nat, height: self.height as nat, data: self.data@ }
    }
}

/// A raster is well formed when its data holds exactly one byte per cell.
pub open spec fn bmp_wf(b: BitmapView) -> bool {
    b.data.len() == b.width * b.height
}

/// The cell of a raster at column `x`, row `y`.
pub open spec fn bpix(b: BitmapView, x: int, y: int) -> u8 {
    b.data[y * b.width + x]
}

impl Bitmap {
    /// A raster from its dimensions and row-major data.
    pub fn new(width: usize, height: usize, data: Vec<u8>) -> (r: Bitmap)
        requires
            data@.len() == width * height,
        ensures
            r@ == (BitmapView { width: width as nat, height: height as nat, data: data@ }),
            bmp_wf(r@),
    {
        Bitmap { data, height, width }
    }
}

/// One character cell: a character value and the color to draw it in.
#[derive(Debug, Clone, Copy, PartialEq, Eq, Structural)]
pub struct ScreenChar {
    pub character: char,
    pub color: Color,
}

impl ScreenChar {
    /// A character cell from its character and color.
    pub fn new(character: char, color: Color) -> (r: ScreenChar)
        ensures
            r == (ScreenChar { character, color }),
    {
        ScreenChar { character, color }
    }
}

/// The 8x8 glyph that the font gives for a character, as its 8 row bytes,
/// or nothing for a character outside the font.
pub uninterp spec fn glyph_of(c: char) -> Option<Seq<u8>>;

/// Relies on font8x8's `BASIC_FONTS.get`: a pure lookup in a constant sorted
/// glyph table, so the result depends on the character alone.
#[verifier::external_body]
fn basic_glyph(c: char) -> (r: Option<[u8; 8]>)
    ensures
        match r {
            Some(g) => glyph_of(c) == Some(g@),
            None => glyph_of(c) is None,
        },
{
    font8x8::BASIC_FONTS.get(c)
}

/// The color index a glyph row pattern gives to the cell at `(dx, dy)` of its
/// 8x8 block: the glyph's color where the bit is set, black where it is not.
pub open spec fn glyph_px(rows: Seq<u8>, dx: int, dy: int, color: Color) -> u8 {
    if (rows[dy] >> dx as u8) & 1 == 1 {
        color.code_spec()
    } else {
        0
    }
}

/// The framebuffer writer: every drawing primitive mutates the off-screen
/// `buffer`; only `apply` copies it onto the hardware surface `screen`.
pub struct Writer {
    pub screen: Vec<u8>,
    pub buffer: Vec<u8>,
}

impl Writer {
    /// Both surfaces hold exactly one byte per pixel.
    pub open spec fn wf(&self) -> bool {
        buf_wf(self.screen@) && buf_wf(self.buffer@)
    }

    /// A writer whose surfaces are fully black.
    pub fn new() -> (w: Writer)
        ensures
            w.wf(),
            forall|cx: int, cy: int|
                in_screen(cx, cy) ==> #[trigger] pix(w.buffer@, cx, cy) == 0,
            forall|cx: int, cy: int|
                in_screen(cx, cy) ==> #[trigger] pix(w.screen@, cx, cy) == 0,
    {
        let screen = vec![0u8; BUFFER_AREA];
        let buffer = vec![0u8; BUFFER_AREA];
        proof {
            assert forall|cx: int, cy: int| in_screen(cx, cy) implies #[trigger] pix(
                buffer@,
                cx,
                cy,
            ) == 0 && #[trigger] pix(screen@, cx, cy) == 0 by {
                assert(0 <= cy * 320 + cx < 64000) by (nonlinear_arith)
                    requires
                        in_screen(cx, cy),
                ;
            }
        }
        Writer { screen, buffer }
    }

    /// Write one pixel of the off-screen buffer with a raw color index.
    pub fn write_raw_pixel(&mut self, x: usize, y: usize, color: u8)
        requires
            old(self).wf(),
            x < 320,
            y < 200,
        ensures
            final(self).wf(),
            final(self).screen == old(self).screen,
            forall|cx: int, cy: int|
                in_screen(cx, cy) ==> #[trigger] pix(final(self).buffer@, cx, cy) == (
                if cx == x && cy == y {
                    color
                } else {
                    pix(old(self).buffer@, cx, cy)
                }),
    {
        let i: usize = y * 320 + x;
        self.buffer[i] = color;
        proof {
            assert forall|cx: int, cy: int| in_screen(cx, cy) implies #[trigger] pix(
                self.buffer@,
                cx,
                cy,
            ) == (if cx == x && cy == y {
                color
            } else {
                pix(old(self).buffer@, cx, cy)
            }) by {
                lemma_coord_unique(cx, cy, x as int, y as int);
                assert(0 <= cy * 320 + cx < 64000) by (nonlinear_arith)
                    requires
                        in_screen(cx, cy),
                ;
            }
        }
    }

    /// Write one pixel of the off-screen buffer with a palette color.
    pub fn write_pixel(&mut self, x: usize, y: usize, color: Color)
        requires
            old(self).wf(),
            x < 320,
            y < 200,
        ensures
            final(self).wf(),
            final(self).screen == old(self).screen,
            forall|cx: int, cy: int|
                in_screen(cx, cy) ==> #[trigger] pix(final(self).buffer@, cx, cy) == (
                if cx == x && cy == y {
                    color.code_spec()
                } else {
                    pix(old(self).buffer@, cx, cy)
                }),
    {
        let c = color.code();
        self.write_raw_pixel(x, y, c);
    }

    /// Overwrite the whole off-screen buffer with one color.
    pub fn fill_buffer(&mut self, color: Color)
        requires
            old(self).wf(),
        ensures
            final(self).wf(),
            final(self).screen == old(self).screen,
            forall|cx: int, cy: int|
                in_screen(cx, cy) ==> #[trigger] pix(final(self).buffer@, cx, cy)
                    == color.code_spec(),
    {
        let c = color.code();
        self.buffer = vec![c; BUFFER_AREA];
        proof {
            assert forall|cx: int, cy: int| in_screen(cx, cy) implies #[trigger] pix(
                self.buffer@,
                cx,
                cy,
            ) == color.code_spec() by {
                assert(0 <= cy * 320 + cx < 64000) by (nonlinear_arith)
                    requires
                        in_screen(cx, cy),
                ;
            }
        }
    }

    /// Overwrite a sub-rectangle of the off-screen buffer with one color.
    pub fn draw_rect(&mut self, x: usize, y: usize, width: usize, height: usize, color: Color)
        requires
            old(self).wf(),
            x + width <= 320,
            y + height <= 200,
        ensures
            final(self).wf(),
            final(self).screen == old(self).screen,
            forall|cx: int, cy: int|
                in_screen(cx, cy) ==> #[trigger] pix(final(self).buffer@, cx, cy) == (
                if x <= cx < x + width && y <= cy < y + height {
                    color.code_spec()
                } else {
                    pix(old(self).buffer@, cx, cy)
                }),
    {
        let ghost buf0 = self.buffer@;
        let ghost scr0 = self.screen;
        let mut yy: usize = y;
        while yy < y + height
            invariant
                self.wf(),
                self.screen == scr0,
                y <= yy <= y + height <= 200,
                x + width <= 320,
                forall|cx: int, cy: int|
                    in_screen(cx, cy) ==> #[trigger] pix(self.buffer@, cx, cy) == (
                    if x <= cx < x + width && y <= cy < yy {
                        color.code_spec()
                    } else {
                        pix(buf0, cx, cy)
                    }),
            decreases y + height - yy,
        {
            let mut xx: usize = x;
            while xx < x + width
                invariant
                    self.wf(),
                    self.screen == scr0,
                    y <= yy < y + height <= 200,
                    x <= xx <= x + width <= 320,
                    forall|cx: int, cy: int|
                        in_screen(cx, cy) ==> #[trigger] pix(self.buffer@, cx, cy) == (
                        if x <= cx < x + width && (y <= cy < yy || (cy == yy && x <= cx < xx)) {
                            color.code_spec()
                        } else {
                            pix(buf0, cx, cy)
                        }),
                decreases x + width - xx,
            {
                self.write_pixel(xx, yy, color);
                xx = xx + 1;
            }
            yy = yy + 1;
        }
    }

    /// Read a sub-rectangle of the off-screen buffer into a newly owned
    /// raster; the surfaces are untouched.
    pub fn capture_bmp(&mut self, x: usize, y: usize, width: usize, height: usize) -> (r: Bitmap)
        requires
            old(self).wf(),
            x + width <= 320,
            y + height <= 200,
        ensures
            *final(self) == *old(self),
            r@.width == width,
            r@.height == height,
            bmp_wf(r@),
            forall|dx: int, dy: int|
                0 <= dx < width && 0 <= dy < height ==> #[trigger] bpix(r@, dx, dy) == pix(
                    old(self).buffer@,
                    x + dx,
                    y + dy,
                ),
    {
        let mut data: Vec<u8> = Vec::new();
        let mut yy: usize = 0;
        while yy < height
            invariant
                self.wf(),
                self == old(self),
                x + width <= 320,
                y + height <= 200,
                yy <= height,
                data@.len() == yy * width,
                forall|dx: int, dy: int|
                    0 <= dx < width && 0 <= dy < yy ==> #[trigger] data@[dy * width + dx] == pix(
                        self.buffer@,
                        x + dx,
                        y + dy,
                    ),
            decreases height - yy,
        {
            let mut xx: usize = 0;
            while xx < width
                invariant
                    self.wf(),
                    self == old(self),
                    x + width <= 320,
                    y + height <= 200,
                    yy < height,
                    xx <= width,
                    data@.len() == yy * width + xx,
                    forall|dx: int, dy: int|
                        0 <= dx < width && 0 <= dy < yy ==> #[trigger] data@[dy * width + dx]
                            == pix(self.buffer@, x + dx, y + dy),
                    forall|dx: int|
                        0 <= dx < xx ==> #[trigger] data@[yy * width + dx] == pix(
                            self.buffer@,
                            x + dx,
                            y + yy,
                        ),
                decreases width - xx,
            {
                let i: usize = (y + yy) * 320 + (x + xx);
                let v = self.buffer[i];
                data.push(v);
                proof {
                    assert forall|dx: int, dy: int| 0 <= dx < width && 0 <= dy < yy implies
                        #[trigger] data@[dy * width + dx] == pix(self.buffer@, x + dx, y + dy) by {
                        assert(0 <= dy * width + dx < yy * width + xx) by (nonlinear_arith)
                            requires
                                0 <= dx < width,
                                0 <= dy < yy,
                                0 <= xx,
                        ;
                    }
                }
                xx = xx + 1;
            }
            proof {
                assert((yy + 1) * width == yy * width + width) by (nonlinear_arith);
            }
            yy = yy + 1;
        }
        proof {
            assert(data@.len() == width * height) by (nonlinear_arith)
                requires
                    data@.len() == height * width,
            ;
        }
        let r = Bitmap::new(width, height, data);
        proof {
            assert forall|dx: int, dy: int| 0 <= dx < width && 0 <= dy < height implies
                #[trigger] bpix(r@, dx, dy) == pix(old(self).buffer@, x + dx, y + dy) by {}
        }
        r
    }

    /// Blit a raster onto the off-screen buffer at `(x, y)`. A data value of
    /// 0 is transparent (the underlying pixel is kept); any other value is an
    /// opaque color index.
    pub fn draw_bmp(&mut self, x: usize, y: usize, bmp: &Bitmap)
        requires
            old(self).wf(),
            bmp_wf(bmp@),
            x + bmp@.width <= 320,
            y + bmp@.height <= 200,
        ensures
            final(self).wf(),
            final(self).screen == old(self).screen,
            forall|cx: int, cy: int|
                in_screen(cx, cy) ==> #[trigger] pix(final(self).buffer@, cx, cy) == (
                if x <= cx < x + bmp@.width && y <= cy < y + bmp@.height && bpix(
                    bmp@,
                    cx - x,
                    cy - y,
                ) != 0 {
                    bpix(bmp@, cx - x, cy - y)
                } else {
                    pix(old(self).buffer@, cx, cy)
                }),
    {
        let ghost buf0 = self.buffer@;
        let ghost scr0 = self.screen;
        let width = bmp.width;
        let height = bmp.height;
        let mut yy: usize = 0;
        while yy < height
            invariant
                self.wf(),
                self.screen == scr0,
                bmp_wf(bmp@),
                width == bmp@.width,
                height == bmp@.height,
                x + width <= 320,
                y + height <= 200,
                yy <= height,
                forall|cx: int, cy: int|
                    in_screen(cx, cy) ==> #[trigger] pix(self.buffer@, cx, cy) == (
                    if x <= cx < x + width && y <= cy < y + yy && bpix(bmp@, cx - x, cy - y) != 0 {
                        bpix(bmp@, cx - x, cy - y)
                    } else {
                        pix(buf0, cx, cy)
                    }),
            decreases height - yy,
        {
            let mut xx: usize = 0;
            while xx < width
                invariant
                    self.wf(),
                    self.screen == scr0,
                    bmp_wf(bmp@),
                    width == bmp@.width,
                    height == bmp@.height,
                    x + width <= 320,
                    y + height <= 200,
                    yy < height,
                    xx <= width,
                    forall|cx: int, cy: int|
                        in_screen(cx, cy) ==> #[trigger] pix(self.buffer@, cx, cy) == (
                        if x <= cx < x + width && (y <= cy < y + yy || (cy == y + yy && x <= cx < x
                            + xx)) && bpix(bmp@, cx - x, cy - y) != 0 {
                            bpix(bmp@, cx - x, cy - y)
                        } else {
                            pix(buf0, cx, cy)
                        }),
                decreases width - xx,
            {
                let n = bmp.data.len();
                proof {
                    assert(yy * width <= yy * width + xx < n) by (nonlinear_arith)
                        requires
                            0 <= xx < width,
                            0 <= yy < height,
                            n == width * height,
                    ;
                }
                let i: usize = yy * width + xx;
                let v = bmp.data[i];
                if v > 0 {
                    self.write_raw_pixel(x + xx, y + yy, v);
                }
                xx = xx + 1;
            }
            yy = yy + 1;
        }
    }

    /// Draw one glyph block at `(x, y)`: the glyph's color where a row bit is
    /// set, black where it is not — unconditionally opaque, unlike
    /// `draw_bmp`.
    pub fn draw_glyph(&mut self, x: usize, y: usize, glyph: &[u8; 8], color: Color)
        requires
            old(self).wf(),
            x + 8 <= 320,
            y + 8 <= 200,
        ensures
            final(self).wf(),
            final(self).screen == old(self).screen,
            forall|cx: int, cy: int|
                in_screen(cx, cy) ==> #[trigger] pix(final(self).buffer@, cx, cy) == (
                if x <= cx < x + 8 && y <= cy < y + 8 {
                    glyph_px(glyph@, cx - x, cy - y, color)
                } else {
                    pix(old(self).buffer@, cx, cy)
                }),
    {
        let ghost buf0 = self.buffer@;
        let ghost scr0 = self.screen;
        let mut row: usize = 0;
        while row < 8
            invariant
                self.wf(),
                self.screen == scr0,
                x + 8 <= 320,
                y + 8 <= 200,
                row <= 8,
                forall|cx: int, cy: int|
                    in_screen(cx, cy) ==> #[trigger] pix(self.buffer@, cx, cy) == (
                    if x <= cx < x + 8 && y <= cy < y + row {
                        glyph_px(glyph@, cx - x, cy - y, color)
                    } else {
                        pix(buf0, cx, cy)
                    }),
            decreases 8 - row,
        {
            let g = glyph[row];
            let mut bit: usize = 0;
            while bit < 8
                invariant
                    self.wf(),
                    self.screen == scr0,
                    x + 8 <= 320,
                    y + 8 <= 200,
                    row < 8,
                    bit <= 8,
                    g == glyph@[row as int],
                    forall|cx: int, cy: int|
                        in_screen(cx, cy) ==> #[trigger] pix(self.buffer@, cx, cy) == (
                        if x <= cx < x + 8 && (y <= cy < y + row || (cy == y + row && x <= cx < x
                            + bit)) {
                            glyph_px(glyph@, cx - x, cy - y, color)
                        } else {
                            pix(buf0, cx, cy)
                        }),
                decreases 8 - bit,
            {
                let v = (g >> (bit as u8)) & 1;
                if v == 1 {
                    self.write_pixel(x + bit, y + row, color);
                } else {
                    self.write_pixel(x + bit, y + row, Color::Black);
                }
                proof {
                    assert(glyph_px(glyph@, bit as int, row as int, color) == (if v == 1 {
                        color.code_spec()
                    } else {
                        0u8
                    }));
                }
                bit = bit + 1;
            }
            row = row + 1;
        }
    }

    /// Draw the glyph for one character cell at `(x, y)`. A character outside
    /// the font is silently skipped.
    pub fn draw_char(&mut self, x: usize, y: usize, screen_char: ScreenChar)
        requires
            old(self).wf(),
            x + 8 <= 320,
            y + 8 <= 200,
        ensures
            final(self).wf(),
            final(self).screen == old(self).screen,
            glyph_of(screen_char.character) is None ==> final(self).buffer == old(self).buffer,
            glyph_of(screen_char.character) matches Some(rows) ==> forall|cx: int, cy: int|
                in_screen(cx, cy) ==> #[trigger] pix(final(self).buffer@, cx, cy) == (
                if x <= cx < x + 8 && y <= cy < y + 8 {
                    glyph_px(rows, cx - x, cy - y, screen_char.color)
                } else {
                    pix(old(self).buffer@, cx, cy)
                }),
    {
        match basic_glyph(screen_char.character) {
            Some(glyph) => self.draw_glyph(x, y, &glyph, screen_char.color),
            None => (),
        }
    }

    /// Copy the off-screen buffer onto the hardware surface in one pass. This
    /// is the only operation whose effect is externally visible: afterwards
    /// the surface equals the off-screen buffer bit for bit, whatever the
    /// surface held before, so a multi-primitive frame appears atomically.
    pub fn apply(&mut self)
        requires
            old(self).wf(),
        ensures
            final(self).wf(),
            final(self).buffer == old(self).buffer,
            final(self).screen@ == old(self).buffer@,
    {
        self.screen = self.buffer.clone();
        proof {
            assert(self.screen@ =~= self.buffer@);
        }
    }
}

/// Law: capturing a region of the off-screen buffer and immediately blitting
/// the captured raster back at the same origin is the identity on the whole
/// buffer, provided no pixel inside the region holds color index 0 — a
/// captured 0 replays as transparent, so only such regions round-trip
/// exactly. `b` is what `capture_bmp(x, y, ..)` returns on a buffer `s0`, and
/// `s1` is the buffer `draw_bmp(x, y, &b)` then leaves, each as the
/// operation's contract states it.
pub proof fn lemma_capture_blit_identity(s0: Seq<u8>, s1: Seq<u8>, b: BitmapView, x: int, y: int)
    requires
        buf_wf(s0),
        buf_wf(s1),
        bmp_wf(b),
        0 <= x,
        0 <= y,
        x + b.width <= 320,
        y + b.height <= 200,
        forall|dx: int, dy: int|
            0 <= dx < b.width && 0 <= dy < b.height ==> #[trigger] bpix(b, dx, dy) == pix(
                s0,
                x + dx,
                y + dy,
            ),
        forall|dx: int, dy: int|
            0 <= dx < b.width && 0 <= dy < b.height ==> #[trigger] bpix(b, dx, dy) != 0,
        forall|cx: int, cy: int|
            in_screen(cx, cy) ==> #[trigger] pix(s1, cx, cy) == (if x <= cx < x + b.width && y
                <= cy < y + b.height && bpix(b, cx - x, cy - y) != 0 {
                bpix(b, cx - x, cy - y)
            } else {
                pix(s0, cx, cy)
            }),
    ensures
        forall|cx: int, cy: int|
            in_screen(cx, cy) ==> #[trigger] pix(s1, cx, cy) == pix(s0, cx, cy),
        s1 == s0,
{
    assert forall|cx: int, cy: int| in_screen(cx, cy) implies #[trigger] pix(s1, cx, cy) == pix(
        s0,
        cx,
        cy,
    ) by {
        if x <= cx < x + b.width && y <= cy < y + b.height {
            assert(bpix(b, cx - x, cy - y) == pix(s0, x + (cx - x), y + (cy - y)));
        }
    }
    assert forall|i: int| 0 <= i < 64000 implies s1[i] == s0[i] by {
        let cy = i / 320;
        let cx = i % 320;
        assert(cy * 320 + cx == i && 0 <= cx < 320 && 0 <= cy < 200) by (nonlinear_arith)
            requires
                0 <= i < 64000,
                cy == i / 320,
                cx == i % 320,
        ;
        assert(pix(s1, cx, cy) == pix(s0, cx, cy));
    }
    assert(s1 =~= s0);
}

} // verus!

//! The shell: a scrollback renderer with an incremental redraw algorithm and
//! a line-caching raster store, a keyboard dispatcher with a registered
//! command table, and a modal listener stack that can steal raw keys.
//!
//! Command handlers and key listeners are arbitrary callables supplied by the
//! embedding program; the dispatcher itself only decides. `keyboard_event`
//! returns a [`KeyOutcome`] telling the caller which callable to invoke; the
//! caller then finishes the event with [`LunaRenderer::draw`] (after a
//! forwarded key) or [`LunaShell::finish_dispatch`] (after a command
//! handler).

use vstd::prelude::*;
use crate::vga_buffer::{
    Bitmap, BitmapView, Color, ScreenChar, Writer, bmp_wf, bpix, glyph_of, glyph_px,
    in_screen, pix,
};

verus! {

/// The spec view of one scrollback line.
#[verifier::ext_equal]
pub ghost struct LineView {
    pub chars: Seq<ScreenChar>,
    pub bitmap: BitmapView,
}

/// One row of rendered shell output: its character cells, and — once the row
/// has been rasterized — a cached raster of its screen region (a cache is
/// present exactly when its width is positive).
pub struct LunaLine {
    pub chars: Vec<ScreenChar>,
    pub bitmap: Bitmap,
}

impl View for LunaLine {
    type V = LineView;

    open spec fn view(&self) -> LineView {
        LineView { chars: self.chars@, bitmap: self.bitmap@ }
    }
}

/// The raster of a line that has not been cached yet.
pub open spec fn empty_bmp() -> BitmapView {
    BitmapView { width: 0, height: 0, data: Seq::empty() }
}

/// A fresh, empty, uncached line.
pub open spec fn empty_line() -> LineView {
    LineView { chars: Seq::empty(), bitmap: empty_bmp() }
}

/// A line the renderer can draw: a consistent raster no larger than one
/// 8-pixel row band, and at most 40 character cells (40 glyphs of 8 pixels
/// fill the 320-pixel row).
pub open spec fn line_wf(l: LineView) -> bool {
    &&& bmp_wf(l.bitmap)
    &&& l.bitmap.width <= 320
    &&& l.bitmap.height <= 8
    &&& l.chars.len() <= 40
}

/// Every line is drawable.
pub open spec fn lines_wf(ls: Seq<LineView>) -> bool {
    forall|i: int| 0 <= i < ls.len() ==> line_wf(#[trigger] ls[i])
}

impl LunaLine {
    /// A fresh, empty, uncached line.
    pub fn new() -> (r: LunaLine)
        ensures
            r@ == empty_line(),
    {
        let r = LunaLine { chars: Vec::new(), bitmap: Bitmap::new(0, 0, Vec::new()) };
        proof {
            assert(r@ =~= empty_line());
        }
        r
    }
}

/// A character the renderer displays; all others are dropped silently.
pub open spec fn printable(c: char) -> bool {
    0x20 <= c as u32 <= 0x7e
}

/// The scrollback after one character of output: a newline closes the
/// current line and opens a fresh one, a printable character is appended to
/// the current line (opening one if none exists) in the given color, and
/// anything else is dropped.
pub open spec fn append_char(lines: Seq<LineView>, c: char, color: Color) -> Seq<LineView> {
    if c == '\n' {
        lines.push(empty_line())
    } else if printable(c) {
        let sc = ScreenChar { character: c, color };
        if lines.len() == 0 {
            seq![LineView { chars: seq![sc], bitmap: empty_bmp() }]
        } else {
            lines.update(
                lines.len() - 1,
                LineView {
                    chars: lines.last().chars.push(sc),
                    bitmap: lines.last().bitmap,
                },
            )
        }
    } else {
        lines
    }
}

/// The scrollback after a whole text of output, character by character.
pub open spec fn append_text(lines: Seq<LineView>, text: Seq<char>, color: Color) -> Seq<LineView>
    decreases text.len(),
{
    if text.len() == 0 {
        lines
    } else {
        append_text(append_char(lines, text[0], color), text.skip(1), color)
    }
}

/// Appending one more character appends it to the already-appended text.
proof fn lemma_append_text_snoc(
    lines: Seq<LineView>,
    text: Seq<char>,
    c: char,
    color: Color,
)
    ensures
        append_text(lines, text.push(c), color) == append_char(
            append_text(lines, text, color),
            c,
            color,
        ),
    decreases text.len(),
{
    if text.len() == 0 {
        assert(text.push(c)[0] == c);
        assert(text.push(c).skip(1) =~= Seq::<char>::empty());
        assert(append_text(lines, text.push(c), color) == append_text(
            append_char(lines, c, color),
            Seq::<char>::empty(),
            color,
        ));
        assert(append_text(append_char(lines, c, color), Seq::<char>::empty(), color)
            == append_char(lines, c, color));
        assert(append_text(lines, text, color) == lines);
    } else {
        assert(text.push(c)[0] == text[0]);
        assert(text.push(c).skip(1) =~= text.skip(1).push(c));
        lemma_append_text_snoc(append_char(lines, text[0], color), text.skip(1), c, color);
        assert(append_text(lines, text.push(c), color) == append_text(
            append_char(lines, text[0], color),
            text.skip(1).push(c),
            color,
        ));
        assert(append_text(lines, text, color) == append_text(
            append_char(lines, text[0], color),
            text.skip(1),
            color,
        ));
    }
}

/// Output never shrinks a closed line, so a scrollback that is drawable
/// after more output was drawable before it.
proof fn lemma_append_char_wf_rev(lines: Seq<LineView>, c: char, color: Color)
    requires
        lines_wf(append_char(lines, c, color)),
    ensures
        lines_wf(lines),
{
    let post = append_char(lines, c, color);
    assert forall|i: int| 0 <= i < lines.len() implies line_wf(#[trigger] lines[i]) by {
        if c == '\n' {
            assert(post[i] == lines[i]);
        } else if printable(c) {
            if i < lines.len() - 1 {
                assert(post[i] == lines[i]);
            } else {
                assert(line_wf(post[i]));
            }
        } else {
            assert(post[i] == lines[i]);
        }
    }
}

/// A scrollback that is drawable after a whole text was drawable before it.
proof fn lemma_append_text_wf_rev(lines: Seq<LineView>, text: Seq<char>, color: Color)
    requires
        lines_wf(append_text(lines, text, color)),
    ensures
        lines_wf(lines),
    decreases text.len(),
{
    if text.len() > 0 {
        lemma_append_text_wf_rev(append_char(lines, text[0], color), text.skip(1), color);
        lemma_append_char_wf_rev(lines, text[0], color);
    }
}

/// Appending a text is appending a prefix of it, then the rest.
proof fn lemma_append_text_split(lines: Seq<LineView>, text: Seq<char>, i: int, color: Color)
    requires
        0 <= i <= text.len(),
    ensures
        append_text(lines, text, color) == append_text(
            append_text(lines, text.take(i), color),
            text.skip(i),
            color,
        ),
    decreases i,
{
    if i == 0 {
        assert(text.take(0) =~= Seq::<char>::empty());
        assert(text.skip(0) =~= text);
    } else {
        assert(text.take(i)[0] == text[0]);
        assert(text.take(i).skip(1) =~= text.skip(1).take(i - 1));
        assert(text.skip(i) =~= text.skip(1).skip(i - 1));
        lemma_append_text_split(append_char(lines, text[0], color), text.skip(1), i - 1, color);
    }
}

/// The color index rasterizing a line's characters over a black band gives
/// to the band cell at `(dx, dy)`: cell `dx` falls in the glyph block of
/// character `dx / 8`; past the last character, or where the font has no
/// glyph, the band stays black.
pub open spec fn line_band_px(chars: Seq<ScreenChar>, dx: int, dy: int) -> u8 {
    let k = dx / 8;
    if 0 <= k < chars.len() {
        match glyph_of(chars[k].character) {
            Some(rows) => glyph_px(rows, dx % 8, dy, chars[k].color),
            None => 0,
        }
    } else {
        0
    }
}

/// Glyph blocks are 8 cells wide: cell `8k + cx` lies in block `k`.
proof fn lemma_block_coords(k: int, cx: int)
    requires
        0 <= cx < 8,
        0 <= k,
    ensures
        (8 * k + cx) / 8 == k,
        (8 * k + cx) % 8 == cx,
{
    assert((8 * k + cx) / 8 == k && (8 * k + cx) % 8 == cx) by (nonlinear_arith)
        requires
            0 <= cx < 8,
            0 <= k,
    ;
}

/// How one redraw maps a scrollback line onto its successor: the characters
/// are kept; a line already cached keeps its raster; a line not yet cached
/// acquires a freshly captured 319x8 raster holding exactly the glyph
/// rasterization of its characters over a black band.
pub open spec fn line_redrawn(pre: LineView, post: LineView) -> bool {
    &&& post.chars == pre.chars
    &&& (pre.bitmap.width > 0 ==> post.bitmap == pre.bitmap)
    &&& (pre.bitmap.width == 0 ==> {
        &&& post.bitmap.width == 319
        &&& post.bitmap.height == 8
        &&& bmp_wf(post.bitmap)
        &&& forall|dx: int, dy: int|
            0 <= dx < 319 && 0 <= dy < 8 ==> #[trigger] bpix(post.bitmap, dx, dy) == line_band_px(
                pre.chars,
                dx,
                dy,
            )
    })
}

/// The color index a repainted line gives to the cell at `(cx, dy)` of its
/// 8-pixel screen band. A cached line blits its raster over the black band
/// (a 0 is transparent over black, so every cell shows the raster byte, and
/// cells beyond it stay black); an uncached line is rasterized from its
/// characters.
pub open spec fn drawn_band_px(pre: LineView, cx: int, dy: int) -> u8 {
    if pre.bitmap.width > 0 {
        if cx < pre.bitmap.width && dy < pre.bitmap.height {
            bpix(pre.bitmap, cx, dy)
        } else {
            0
        }
    } else {
        line_band_px(pre.chars, cx, dy)
    }
}

/// After a repaint, the screen band of each kept line shows exactly that
/// line's drawing: line `i` occupies pixel rows `8i..8i+8`.
pub open spec fn bands_drawn(kept: Seq<LineView>, buf: Seq<u8>) -> bool {
    forall|i: int, cx: int, cy: int|
        #![trigger pix(buf, cx, cy), kept[i]]
        0 <= i < kept.len() && 0 <= cx < 320 && 8 * i <= cy < 8 * (i + 1) ==> pix(buf, cx, cy)
            == drawn_band_px(kept[i], cx, cy - 8 * i)
}

/// How a full repaint maps the scrollback onto its successor: everything but
/// the newest 21 lines is evicted, oldest first, and each kept line is
/// redrawn in place.
pub open spec fn lines_redrawn(pre: Seq<LineView>, post: Seq<LineView>) -> bool {
    let off = if pre.len() > 21 {
        pre.len() - 21
    } else {
        0
    };
    &&& post.len() == pre.len() - off
    &&& forall|i: int| 0 <= i < post.len() ==> line_redrawn(pre[off + i], #[trigger] post[i])
}

/// Appending one character keeps a drawable scrollback drawable, as long as
/// a printable character still fits on the current line.
proof fn lemma_append_char_wf_fwd(lines: Seq<LineView>, c: char, color: Color)
    requires
        lines_wf(lines),
        printable(c) && lines.len() > 0 ==> lines.last().chars.len() < 40,
    ensures
        lines_wf(append_char(lines, c, color)),
{
    let post = append_char(lines, c, color);
    assert forall|i: int| 0 <= i < post.len() implies line_wf(#[trigger] post[i]) by {
        if c == '\n' {
            if i < lines.len() {
                assert(post[i] == lines[i]);
            }
        } else if printable(c) {
            if lines.len() > 0 && i < lines.len() - 1 {
                assert(post[i] == lines[i]);
            }
        } else {
            assert(post[i] == lines[i]);
        }
    }
}

/// Appending a text whose length still fits on the current line keeps a
/// drawable scrollback drawable.
proof fn lemma_append_text_wf_fwd(lines: Seq<LineView>, text: Seq<char>, color: Color)
    requires
        lines_wf(lines),
        text.len() <= 40,
        lines.len() > 0 ==> lines.last().chars.len() + text.len() <= 40,
    ensures
        lines_wf(append_text(lines, text, color)),
    decreases text.len(),
{
    if text.len() > 0 {
        let c = text[0];
        lemma_append_char_wf_fwd(lines, c, color);
        let mid = append_char(lines, c, color);
        if c == '\n' {
            assert(mid.last() == empty_line());
        } else if printable(c) {
            lemma_append_printable_grow(lines, c, color);
        }
        lemma_append_text_wf_fwd(mid, text.skip(1), color);
    }
}

/// How one appended printable character lengthens the current line.
proof fn lemma_append_printable_grow(lines: Seq<LineView>, c: char, color: Color)
    requires
        printable(c),
    ensures
        lines.len() == 0 ==> append_char(lines, c, color).last().chars.len() == 1,
        lines.len() > 0 ==> append_char(lines, c, color).last().chars.len() == lines.last(
        ).chars.len() + 1,
{
    let sc = ScreenChar { character: c, color };
    let mid = append_char(lines, c, color);
    if lines.len() == 0 {
        assert(seq![sc].len() == 1);
        assert(mid.last().chars.len() == 1);
    } else {
        assert(mid.last() == (LineView {
            chars: lines.last().chars.push(sc),
            bitmap: lines.last().bitmap,
        }));
    }
}

/// The spec view of the renderer.
#[verifier::ext_equal]
pub ghost struct RendView {
    pub input: Seq<char>,
    pub last_input_length: u16,
    pub lines: Seq<LineView>,
    pub color: Color,
    pub enabled: bool,
}

/// The text renderer: the live input echo, the scrollback of completed
/// output lines, the output color, and the length the input line had when
/// the prompt row was last rendered — the key of the incremental redraw.
pub struct LunaRenderer {
    pub input: Vec<char>,
    pub last_input_length: u16,
    pub lines: Vec<LunaLine>,
    pub color: Color,
    pub enabled: bool,
}

/// The spec view of a whole scrollback.
pub open spec fn lines_view(lines: Seq<LunaLine>) -> Seq<LineView> {
    lines.map_values(|l: LunaLine| l@)
}

proof fn lemma_lines_view_skip(s: Seq<LunaLine>, k: int)
    requires
        0 <= k <= s.len(),
    ensures
        lines_view(s.skip(k)) =~= lines_view(s).skip(k),
{
}

proof fn lemma_lines_view_push(s: Seq<LunaLine>, l: LunaLine)
    ensures
        lines_view(s.push(l)) =~= lines_view(s).push(l@),
{
    assert forall|i: int| 0 <= i < s.len() + 1 implies lines_view(s.push(l))[i] == lines_view(
        s,
    ).push(l@)[i] by {
        if i < s.len() {
            assert(s.push(l)[i] == s[i]);
        } else {
            assert(s.push(l)[i] == l);
        }
    }
}

impl View for LunaRenderer {
    type V = RendView;

    open spec fn view(&self) -> RendView {
        RendView {
            input: self.input@,
            last_input_length: self.last_input_length,
            lines: lines_view(self.lines@),
            color: self.color,
            enabled: self.enabled,
        }
    }
}

/// The pixels a draw's prompt pass may touch when the input echo has
/// `ilen` characters: the prompt row band, one glyph block for `>` and one
/// per input character.
pub open spec fn in_prompt_region(cx: int, cy: int, ilen: int) -> bool {
    188 <= cy < 196 && 0 <= cx < 8 * (ilen + 1)
}

/// The character cell drawn in glyph block `k` of the prompt row: a light
/// blue `>`, then each input character in light gray.
pub open spec fn prompt_char(input: Seq<char>, k: int) -> ScreenChar {
    if k == 0 {
        ScreenChar { character: '>', color: Color::LightBlue }
    } else {
        ScreenChar { character: input[k - 1], color: Color::LightGray }
    }
}

/// A prompt-region pixel of `buf` shows the glyph of its block's character,
/// wherever the font has that glyph.
pub open spec fn prompt_pix_ok(input: Seq<char>, buf: Seq<u8>, cx: int, cy: int) -> bool {
    glyph_of(prompt_char(input, cx / 8).character) matches Some(rows) ==> pix(buf, cx, cy)
        == glyph_px(rows, cx % 8, cy - 188, prompt_char(input, cx / 8).color)
}

/// What one `draw` call does, relating the renderer and writer before it
/// (`r0`, `w0`) to the renderer and writer after it (`r1`, `w1`). While the
/// renderer is suspended a draw does nothing. Otherwise it always records
/// the rendered input length and commits the frame, and exactly when the
/// input did not strictly grow since the last draw it also evicts and
/// redraws the scrollback; when the input did strictly grow, the scrollback
/// is untouched and only prompt-region pixels change.
pub open spec fn draw_rel(r0: RendView, r1: RendView, w0: Writer, w1: Writer) -> bool {
    if !r0.enabled {
        r1 == r0 && w1 == w0
    } else {
        &&& r1.input == r0.input
        &&& r1.color == r0.color
        &&& r1.enabled == r0.enabled
        &&& r1.last_input_length == r0.input.len() as u16
        &&& w1.wf()
        &&& w1.screen@ == w1.buffer@
        &&& forall|cx: int, cy: int|
            in_screen(cx, cy) && in_prompt_region(cx, cy, r0.input.len() as int)
                ==> #[trigger] prompt_pix_ok(r0.input, w1.buffer@, cx, cy)
        &&& if (r0.input.len() as u16) <= r0.last_input_length {
            let off = if r0.lines.len() > 21 {
                r0.lines.len() - 21
            } else {
                0
            };
            &&& lines_redrawn(r0.lines, r1.lines)
            &&& bands_drawn(r0.lines.skip(off), w1.buffer@)
            &&& forall|cx: int, cy: int|
                in_screen(cx, cy) && cy >= 8 * r1.lines.len() && !in_prompt_region(
                    cx,
                    cy,
                    r0.input.len() as int,
                ) ==> #[trigger] pix(w1.buffer@, cx, cy) == 0
        } else {
            &&& r1.lines == r0.lines
            &&& forall|cx: int, cy: int|
                in_screen(cx, cy) && !in_prompt_region(cx, cy, r0.input.len() as int)
                    ==> #[trigger] pix(w1.buffer@, cx, cy) == pix(w0.buffer@, cx, cy)
        }
    }
}

impl LunaRenderer {
    /// Every line is drawable and the input fits on the prompt row beside
    /// its `>` glyph.
    pub open spec fn wf(&self) -> bool {
        &&& self.input@.len() <= 39
        &&& lines_wf(self@.lines)
    }

    /// A fresh renderer: no scrollback, no input, light-gray output, and a
    /// last rendered length that forces the first draw to repaint fully.
    pub fn new() -> (r: LunaRenderer)
        ensures
            r.wf(),
            r@ == (RendView {
                input: Seq::<char>::empty(),
                last_input_length: 65535u16,
                lines: Seq::<LineView>::empty(),
                color: Color::LightGray,
                enabled: true,
            }),
    {
        let r = LunaRenderer {
            input: Vec::new(),
            last_input_length: 65535,
            lines: Vec::new(),
            color: Color::LightGray,
            enabled: true,
        };
        proof {
            assert(lines_view(r.lines@) =~= Seq::<LineView>::empty());
            assert(r@ =~= (RendView {
                input: Seq::<char>::empty(),
                last_input_length: 65535u16,
                lines: Seq::<LineView>::empty(),
                color: Color::LightGray,
                enabled: true,
            }));
        }
        r
    }

    /// Set the color later output is rendered in.
    pub fn set_color(&mut self, color: Color)
        ensures
            *final(self) == (LunaRenderer { color, ..*old(self) }),
    {
        self.color = color;
    }

    /// Enable or suspend rendering; while suspended, `draw` is a no-op, so a
    /// command's full-screen graphics own the surface.
    pub fn set_enabled(&mut self, enabled: bool)
        ensures
            *final(self) == (LunaRenderer { enabled, ..*old(self) }),
    {
        self.enabled = enabled;
    }

    /// Append one already-rasterized line to the scrollback.
    pub fn push_bmp_line(&mut self, bmp: Bitmap)
        requires
            old(self).wf(),
            bmp_wf(bmp@),
            bmp@.width <= 320,
            bmp@.height <= 8,
        ensures
            final(self).wf(),
            final(self)@ == (RendView {
                lines: old(self)@.lines.push(LineView { chars: Seq::empty(), bitmap: bmp@ }),
                ..old(self)@
            }),
    {
        let ghost bv = bmp@;
        let line = LunaLine { bitmap: bmp, chars: Vec::new() };
        self.lines.push(line);
        proof {
            assert(lines_view(self.lines@) =~= old(self)@.lines.push(
                LineView { chars: Seq::empty(), bitmap: bv },
            ));
            assert(self@ =~= (RendView {
                lines: old(self)@.lines.push(LineView { chars: Seq::empty(), bitmap: bv }),
                ..old(self)@
            }));
        }
    }

    /// Emit one character of output to the scrollback.
    pub fn write_char(&mut self, c: char)
        requires
            old(self).wf(),
            lines_wf(append_char(old(self)@.lines, c, old(self).color)),
        ensures
            final(self).wf(),
            final(self)@ == (RendView {
                lines: append_char(old(self)@.lines, c, old(self).color),
                ..old(self)@
            }),
    {
        let ghost target = append_char(old(self)@.lines, c, old(self).color);
        if c == '\n' {
            self.lines.push(LunaLine::new());
            proof {
                assert(lines_view(self.lines@) =~= target);
            }
        } else {
            let u = c as u32;
            if 0x20 <= u && u <= 0x7e {
                if self.lines.len() == 0 {
                    self.lines.push(LunaLine::new());
                    proof {
                        assert(lines_view(self.lines@) =~= old(self)@.lines.push(empty_line()));
                    }
                }
                let mut line = self.lines.pop().unwrap();
                let sc = ScreenChar::new(c, self.color);
                proof {
                    if old(self)@.lines.len() > 0 {
                        assert(line@ == old(self)@.lines.last());
                    }
                }
                line.chars.push(sc);
                self.lines.push(line);
                proof {
                    assert(lines_view(self.lines@) =~= target);
                }
            }
        }
        proof {
            assert(self@ =~= (RendView { lines: target, ..old(self)@ }));
        }
    }

    /// Repaint the display. If the input did not strictly grow since the
    /// last draw, the scrollback is clipped to its newest 21 lines and fully
    /// redrawn — blitting each cached line, rasterizing and then caching
    /// each uncached one. If the input strictly grew (plain typing), the
    /// scrollback pass is skipped entirely and only the prompt row changes.
    /// Either way the prompt row is drawn and the frame is committed.
    pub fn draw(&mut self, writer: &mut Writer)
        requires
            old(self).wf(),
            old(writer).wf(),
        ensures
            final(self).wf(),
            final(writer).wf(),
            draw_rel(old(self)@, final(self)@, *old(writer), *final(writer)),
    {
        if !self.enabled {
            return ;
        }
        let ghost r0 = self@;
        let ghost w0 = *writer;
        let repaint = (self.input.len() as u16) <= self.last_input_length;
        if repaint {
            writer.fill_buffer(Color::Black);
            let ghost n0 = self@.lines.len();
            proof {
                assert(lines_view(self.lines@) =~= r0.lines.skip(0));
            }
            while self.lines.len() > 21
                invariant
                    self.wf(),
                    self.lines@.len() <= n0,
                    self.lines@.len() >= 21 || self.lines@.len() == n0,
                    lines_view(self.lines@) == r0.lines.skip(n0 - self.lines@.len()),
                    self.input == old(self).input,
                    self.last_input_length == old(self).last_input_length,
                    self.color == old(self).color,
                    self.enabled == old(self).enabled,
                    n0 == r0.lines.len(),
                decreases self.lines@.len(),
            {
                let ghost k = n0 - self.lines@.len();
                let ghost ls = self.lines@;
                self.lines.remove(0);
                proof {
                    assert(self.lines@ =~= ls.skip(1));
                    lemma_lines_view_skip(ls, 1);
                    assert(lines_view(ls).skip(1) =~= r0.lines.skip(k + 1));
                    assert(lines_view(self.lines@) == r0.lines.skip(k + 1));
                }
            }
            let ghost off: int = if r0.lines.len() > 21 {
                r0.lines.len() - 21
            } else {
                0
            };
            let ghost kept = r0.lines.skip(off);
            proof {
                assert(lines_view(self.lines@) == kept);
                assert(kept.len() <= 21);
                assert(kept.skip(0) =~= kept);
                assert forall|i: int| 0 <= i < kept.len() implies line_wf(#[trigger] kept[i]) by {
                    assert(kept[i] == r0.lines[off + i]);
                }
            }
            let mut newlines: Vec<LunaLine> = Vec::new();
            proof {
                assert(lines_view(newlines@) =~= Seq::<LineView>::empty());
            }
            while self.lines.len() > 0
                invariant
                    writer.wf(),
                    writer.screen == w0.screen,
                    lines_wf(lines_view(self.lines@)),
                    lines_wf(lines_view(newlines@)),
                    newlines@.len() + self.lines@.len() == kept.len() <= 21,
                    lines_view(self.lines@) == kept.skip(newlines@.len() as int),
                    self.input == old(self).input,
                    self.last_input_length == old(self).last_input_length,
                    self.color == old(self).color,
                    self.enabled == old(self).enabled,
                    forall|cx: int, cy: int|
                        in_screen(cx, cy) && cy >= 8 * newlines@.len() ==> #[trigger] pix(
                            writer.buffer@,
                            cx,
                            cy,
                        ) == 0,
                    forall|i: int, cx: int, cy: int|
                        #![trigger pix(writer.buffer@, cx, cy), kept[i]]
                        0 <= i < newlines@.len() && 0 <= cx < 320 && 8 * i <= cy < 8 * (i + 1)
                            ==> pix(writer.buffer@, cx, cy) == drawn_band_px(
                            kept[i],
                            cx,
                            cy - 8 * i,
                        ),
                    forall|i: int|
                        0 <= i < newlines@.len() ==> line_redrawn(
                            kept[i],
                            #[trigger] lines_view(newlines@)[i],
                        ),
                decreases self.lines@.len(),
            {
                let ghost li_s = newlines@.len() as int;
                let ghost ls = self.lines@;
                let ghost nl0 = lines_view(newlines@);
                proof {
                    assert(kept.skip(li_s)[0] == kept[li_s]);
                    assert(lines_view(ls)[0] == ls[0]@);
                    assert(line_wf(kept[li_s]));
                }
                let line = self.lines.remove(0);
                proof {
                    assert(line@ == kept[li_s]);
                    assert(self.lines@ =~= ls.skip(1));
                    lemma_lines_view_skip(ls, 1);
                    assert(lines_view(ls).skip(1) =~= kept.skip(li_s + 1));
                    assert(lines_view(self.lines@) == kept.skip(li_s + 1));
                }
                let li = newlines.len();
                let ghost lv = line@;
                let entry: LunaLine;
                if line.bitmap.width > 0 {
                    writer.draw_bmp(0, 8 * li, &line.bitmap);
                    proof {
                        assert forall|cx: int, cy: int|
                            0 <= cx < 320 && 8 * li <= cy < 8 * li + 8 implies #[trigger] pix(
                            writer.buffer@,
                            cx,
                            cy,
                        ) == drawn_band_px(lv, cx, cy - 8 * li) by {
                            if cx < lv.bitmap.width && cy - 8 * li < lv.bitmap.height {
                                if bpix(lv.bitmap, cx, cy - 8 * li) == 0 {
                                    assert(pix(writer.buffer@, cx, cy) == 0);
                                }
                            }
                        }
                    }
                    entry = line;
                } else {
                    let m = line.chars.len();
                    let mut kk: usize = 0;
                    while kk < m
                        invariant
                            writer.wf(),
                            writer.screen == w0.screen,
                            m == line.chars@.len() <= 40,
                            kk <= m,
                            li < 21,
                            lv == line@,
                            li == newlines@.len(),
                            forall|cx: int, cy: int|
                                in_screen(cx, cy) && cy >= 8 * (li + 1) ==> #[trigger] pix(
                                    writer.buffer@,
                                    cx,
                                    cy,
                                ) == 0,
                            forall|i: int, cx: int, cy: int|
                                #![trigger pix(writer.buffer@, cx, cy), kept[i]]
                                0 <= i < li && 0 <= cx < 320 && 8 * i <= cy < 8 * (i + 1) ==> pix(
                                    writer.buffer@,
                                    cx,
                                    cy,
                                ) == drawn_band_px(kept[i], cx, cy - 8 * i),
                            forall|cx: int, cy: int|
                                in_screen(cx, cy) && 8 * li <= cy < 8 * li + 8 ==> #[trigger] pix(
                                    writer.buffer@,
                                    cx,
                                    cy,
                                ) == (if cx < 8 * kk {
                                    line_band_px(lv.chars, cx, cy - 8 * li)
                                } else {
                                    0
                                }),
                        decreases m - kk,
                    {
                        let ghost bufp = writer.buffer@;
                        let sc = line.chars[kk];
                        writer.draw_char(8 * kk, 8 * li, sc);
                        proof {
                            assert forall|cx: int, cy: int|
                                in_screen(cx, cy) && 8 * li <= cy < 8 * li + 8 implies #[trigger]
                            pix(writer.buffer@, cx, cy) == (if cx < 8 * (kk + 1) {
                                line_band_px(lv.chars, cx, cy - 8 * li)
                            } else {
                                0
                            }) by {
                                if 8 * kk <= cx < 8 * kk + 8 {
                                    lemma_block_coords(kk as int, cx - 8 * kk);
                                    assert(lv.chars[cx / 8] == sc);
                                    if glyph_of(sc.character) is None {
                                        assert(pix(writer.buffer@, cx, cy) == pix(bufp, cx, cy));
                                    }
                                }
                            }
                        }
                        kk = kk + 1;
                    }
                    let cap = writer.capture_bmp(0, 8 * li, 319, 8);
                    proof {
                        assert forall|dx: int, dy: int| 0 <= dx < 319 && 0 <= dy < 8 implies
                            #[trigger] bpix(cap@, dx, dy) == line_band_px(lv.chars, dx, dy) by {
                            assert(bpix(cap@, dx, dy) == pix(writer.buffer@, 0 + dx, 8 * li + dy));
                            assert(pix(writer.buffer@, dx, 8 * li + dy) == (if dx < 8 * (m as int) {
                                line_band_px(lv.chars, dx, (8 * li + dy) - 8 * li)
                            } else {
                                0
                            }));
                            if dx >= 8 * (m as int) {
                                assert(dx / 8 >= m) by (nonlinear_arith)
                                    requires
                                        dx >= 8 * m,
                                        0 <= m,
                                ;
                                assert(line_band_px(lv.chars, dx, dy) == 0);
                            }
                        }
                        assert forall|cx: int, cy: int|
                            0 <= cx < 320 && 8 * li <= cy < 8 * li + 8 implies #[trigger] pix(
                            writer.buffer@,
                            cx,
                            cy,
                        ) == drawn_band_px(lv, cx, cy - 8 * li) by {
                            if cx >= 8 * (m as int) {
                                assert(cx / 8 >= m) by (nonlinear_arith)
                                    requires
                                        cx >= 8 * m,
                                        0 <= m,
                                ;
                            }
                        }
                    }
                    entry = LunaLine { chars: line.chars, bitmap: cap };
                }
                let ghost pushed = entry@;
                let ghost nlpre = newlines@;
                newlines.push(entry);
                proof {
                    lemma_lines_view_push(nlpre, newlines@.last());
                    assert(nlpre.push(newlines@.last()) =~= newlines@);
                    assert(lines_view(newlines@) == lines_view(nlpre).push(pushed));
                    assert(line_redrawn(kept[li_s], pushed));
                    assert(line_wf(pushed));
                    assert forall|i: int| 0 <= i < newlines@.len() implies line_redrawn(
                        kept[i],
                        #[trigger] lines_view(newlines@)[i],
                    ) && line_wf(lines_view(newlines@)[i]) by {
                        if i < li_s {
                            assert(lines_view(newlines@)[i] == nl0[i]);
                        } else {
                            assert(lines_view(newlines@)[i] == pushed);
                        }
                    }
                }
            }
            self.lines = newlines;
            proof {
                assert forall|i: int| 0 <= i < self@.lines.len() implies line_redrawn(
                    r0.lines[off + i],
                    #[trigger] self@.lines[i],
                ) by {
                    assert(kept[i] == r0.lines[off + i]);
                }
                assert(lines_redrawn(r0.lines, self@.lines));
            }
        }
        let ghost wb = *writer;
        let n = self.input.len();
        let prompt = ScreenChar::new('>', Color::LightBlue);
        writer.draw_char(0, 188, prompt);
        proof {
            assert forall|cx: int, cy: int|
                in_screen(cx, cy) && in_prompt_region(cx, cy, 0) implies #[trigger] prompt_pix_ok(
                self.input@,
                writer.buffer@,
                cx,
                cy,
            ) by {
                lemma_block_coords(0, cx);
                assert(prompt_char(self.input@, cx / 8) == prompt);
            }
        }
        let mut k: usize = 0;
        while k < n
            invariant
                writer.wf(),
                writer.screen == w0.screen,
                k <= n,
                n == self.input@.len() <= 39,
                self.wf(),
                forall|cx: int, cy: int|
                    in_screen(cx, cy) && !in_prompt_region(cx, cy, n as int)
                        ==> #[trigger] pix(writer.buffer@, cx, cy) == pix(wb.buffer@, cx, cy),
                forall|cx: int, cy: int|
                    in_screen(cx, cy) && in_prompt_region(cx, cy, k as int)
                        ==> #[trigger] prompt_pix_ok(self.input@, writer.buffer@, cx, cy),
            decreases n - k,
        {
            let ghost bufp = writer.buffer@;
            let sc = ScreenChar::new(self.input[k], Color::LightGray);
            writer.draw_char(8 * (k + 1), 188, sc);
            proof {
                assert forall|cx: int, cy: int|
                    in_screen(cx, cy) && in_prompt_region(cx, cy, k + 1) implies #[trigger]
                prompt_pix_ok(self.input@, writer.buffer@, cx, cy) by {
                    if 8 * (k + 1) <= cx < 8 * (k + 1) + 8 {
                        lemma_block_coords(k + 1, cx - 8 * (k + 1));
                        assert(prompt_char(self.input@, cx / 8) == sc);
                    } else {
                        assert(prompt_pix_ok(self.input@, bufp, cx, cy));
                        assert(pix(writer.buffer@, cx, cy) == pix(bufp, cx, cy));
                    }
                }
            }
            k = k + 1;
        }
        self.last_input_length = self.input.len() as u16;
        writer.apply();
        proof {
            if (r0.input.len() as u16) <= r0.last_input_length {
                let offx: int = if r0.lines.len() > 21 {
                    r0.lines.len() - 21
                } else {
                    0
                };
                let keptx = r0.lines.skip(offx);
                assert forall|i: int, cx: int, cy: int|
                    #![trigger pix(writer.buffer@, cx, cy), keptx[i]]
                    0 <= i < keptx.len() && 0 <= cx < 320 && 8 * i <= cy < 8 * (i + 1) implies pix(
                    writer.buffer@,
                    cx,
                    cy,
                ) == drawn_band_px(keptx[i], cx, cy - 8 * i) by {
                    assert(cy < 176);
                    assert(pix(writer.buffer@, cx, cy) == pix(wb.buffer@, cx, cy));
                    assert(pix(wb.buffer@, cx, cy) == drawn_band_px(keptx[i], cx, cy - 8 * i));
                }
                assert(bands_drawn(keptx, writer.buffer@));
                assert forall|cx: int, cy: int|
                    in_screen(cx, cy) && cy >= 8 * self@.lines.len() && !in_prompt_region(
                        cx,
                        cy,
                        r0.input.len() as int,
                    ) implies #[trigger] pix(writer.buffer@, cx, cy) == 0 by {
                    assert(pix(writer.buffer@, cx, cy) == pix(wb.buffer@, cx, cy));
                    assert(pix(wb.buffer@, cx, cy) == 0);
                }
            }
        }
    }

    /// Emit a text of output to the scrollback, character by character.
    pub fn write_string(&mut self, s: &str)
        requires
            old(self).wf(),
            lines_wf(append_text(old(self)@.lines, s@, old(self).color)),
        ensures
            final(self).wf(),
            final(self)@ == (RendView {
                lines: append_text(old(self)@.lines, s@, old(self).color),
                ..old(self)@
            }),
    {
        let n = s.unicode_len();
        let ghost lines0 = old(self)@.lines;
        let ghost color = old(self).color;
        for i in 0..n
            invariant
                n == s@.len(),
                self.wf(),
                color == self.color,
                lines_wf(append_text(lines0, s@, color)),
                self@ == (RendView { lines: append_text(lines0, s@.take(i as int), color), ..old(
                    self,
                )@ }),
        {
            let c = s.get_char(i);
            proof {
                assert(s@.take(i + 1) =~= s@.take(i as int).push(s@[i as int]));
                lemma_append_text_snoc(lines0, s@.take(i as int), s@[i as int], color);
                lemma_append_text_split(lines0, s@, i + 1, color);
                lemma_append_text_wf_rev(
                    append_text(lines0, s@.take(i + 1), color),
                    s@.skip(i + 1),
                    color,
                );
            }
            self.write_char(c);
        }
        proof {
            assert(s@.take(n as int) =~= s@);
        }
    }
}

/// The modal keyboard interceptor stack: while it is non-empty, the
/// dispatcher forwards every key verbatim to the most recently pushed
/// listener and its own line editing is bypassed. `L` is whatever callable
/// type the embedding program uses for a listener; the stack only stores it.
pub struct LunaListeners<L> {
    pub key_listeners: Vec<L>,
}

impl<L> LunaListeners<L> {
    /// An empty stack: keys go to the dispatcher's own line editing.
    pub fn new() -> (r: LunaListeners<L>)
        ensures
            r.key_listeners@.len() == 0,
    {
        LunaListeners { key_listeners: Vec::new() }
    }

    /// Install a modal interceptor; keys bypass the dispatcher until it is
    /// popped.
    pub fn push_listener(&mut self, listener: L)
        ensures
            final(self).key_listeners@ == old(self).key_listeners@.push(listener),
    {
        self.key_listeners.push(listener);
    }

    /// Remove the most recently installed interceptor, if any.
    pub fn pop_listener(&mut self)
        ensures
            old(self).key_listeners@.len() == 0 ==> final(self).key_listeners@ == old(
                self,
            ).key_listeners@,
            old(self).key_listeners@.len() > 0 ==> final(self).key_listeners@ == old(
                self,
            ).key_listeners@.drop_last(),
    {
        let _popped = self.key_listeners.pop();
        proof {
            if old(self).key_listeners@.len() == 0 {
                assert(self.key_listeners@ =~= old(self).key_listeners@);
            }
        }
    }

    /// The listener keys are currently forwarded to: the top of the stack.
    pub fn top_listener(&self) -> (r: &L)
        requires
            self.key_listeners@.len() > 0,
        ensures
            *r == self.key_listeners@.last(),
    {
        &self.key_listeners[self.key_listeners.len() - 1]
    }
}

/// A command trigger matches an input exactly when the trigger is a
/// whole-token prefix of the input: the input starts with the trigger, and
/// what follows it, if anything, starts with a space.
pub open spec fn cmd_matches(input: Seq<char>, cmd: Seq<char>) -> bool {
    &&& input.len() >= cmd.len()
    &&& (forall|k: int| 0 <= k < cmd.len() ==> input[k] == #[trigger] cmd[k])
    &&& (input.len() == cmd.len() || input[cmd.len() as int] == ' ')
}

/// `i` is the first registered command whose trigger matches the input.
pub open spec fn is_first_match(cmds: Seq<Seq<char>>, input: Seq<char>, i: int) -> bool {
    &&& 0 <= i < cmds.len()
    &&& cmd_matches(input, cmds[i])
    &&& forall|j: int| 0 <= j < i ==> !cmd_matches(input, #[trigger] cmds[j])
}

/// No registered command matches the input.
pub open spec fn no_match(cmds: Seq<Seq<char>>, input: Seq<char>) -> bool {
    forall|j: int| 0 <= j < cmds.len() ==> !cmd_matches(input, #[trigger] cmds[j])
}

/// At most one command is the first match.
proof fn lemma_first_match_unique(cmds: Seq<Seq<char>>, input: Seq<char>, i: int, j: int)
    requires
        is_first_match(cmds, input, i),
        is_first_match(cmds, input, j),
    ensures
        i == j,
{
    if i < j {
        assert(!cmd_matches(input, cmds[i]));
    } else if j < i {
        assert(!cmd_matches(input, cmds[j]));
    }
}

/// The argument sequence a matched command's handler receives: everything
/// after the trigger and its one separating space, or nothing when the
/// input is not longer than the trigger.
pub open spec fn args_of(input: Seq<char>, cmd: Seq<char>) -> Seq<char> {
    if input.len() > cmd.len() {
        input.skip(cmd.len() as int + 1)
    } else {
        Seq::empty()
    }
}

/// Line completion prints "Unknown Command." exactly when the input is
/// empty, no trigger matches, or the first matching trigger is the empty
/// one (an empty match is indistinguishable from no match).
pub open spec fn completion_unknown(cmds: Seq<Seq<char>>, input: Seq<char>) -> bool {
    ||| input.len() == 0
    ||| no_match(cmds, input)
    ||| exists|i: int| #[trigger] is_first_match(cmds, input, i) && cmds[i].len() == 0
}

/// The scrollback after line completion echoes the submitted input: a new
/// line holding a blue `>` and the input's printable characters in light
/// gray, closed by a newline; the output color is left dark gray.
pub open spec fn echo_lines(lines: Seq<LineView>, input: Seq<char>) -> Seq<LineView> {
    append_char(
        append_text(
            append_char(append_char(lines, '\n', Color::Blue), '>', Color::Blue),
            input,
            Color::LightGray,
        ),
        '\n',
        Color::DarkGray,
    )
}

/// The scrollback just before the redraw that ends an unknown-command
/// completion: the echo, then "Unknown Command." in light red, then the
/// closing newline.
pub open spec fn unknown_mid_lines(lines: Seq<LineView>, input: Seq<char>) -> Seq<LineView> {
    append_char(
        append_text(echo_lines(lines, input), "Unknown Command."@, Color::LightRed),
        '\n',
        Color::LightRed,
    )
}

/// The spec view of a registered command table.
pub open spec fn cmds_view(cmds: Seq<Vec<char>>) -> Seq<Seq<char>> {
    cmds.map_values(|c: Vec<char>| c@)
}

/// What the dispatcher asks its caller to do with one key, beyond what it
/// has already done itself.
#[derive(Debug)]
pub enum KeyOutcome {
    /// The event is complete; nothing is left for the caller.
    Handled,
    /// A modal listener is active: invoke the top listener with this key,
    /// then call [`LunaRenderer::draw`].
    Forward { key: char },
    /// A command completed: invoke the handler registered at `index` with
    /// `args`, then call [`LunaShell::finish_dispatch`].
    Dispatch { index: usize, args: Vec<char> },
}

/// A copy of a character sequence.
fn clone_chars(v: &Vec<char>) -> (r: Vec<char>)
    ensures
        r@ == v@,
{
    let mut r: Vec<char> = Vec::new();
    let n = v.len();
    for i in 0..n
        invariant
            n == v@.len(),
            r@ == v@.take(i as int),
    {
        r.push(v[i]);
        proof {
            assert(r@ =~= v@.take(i + 1));
        }
    }
    proof {
        assert(v@.take(n as int) =~= v@);
    }
    r
}

/// Whether a trigger is a whole-token prefix of the input.
fn matches_cmd(input: &Vec<char>, cmd: &Vec<char>) -> (r: bool)
    ensures
        r == cmd_matches(input@, cmd@),
{
    let m = cmd.len();
    if input.len() < m {
        return false;
    }
    for k in 0..m
        invariant
            m == cmd@.len() <= input@.len(),
            forall|j: int| 0 <= j < k ==> input@[j] == #[trigger] cmd@[j],
    {
        if input[k] != cmd[k] {
            return false;
        }
    }
    if input.len() > m {
        if input[m] != ' ' {
            return false;
        }
    }
    true
}

/// The command shell: the raw input line being edited and the registered
/// command table. Handlers are whatever callable type `H` the embedding
/// program registers; the shell stores them and names which one to invoke,
/// the caller invokes it.
pub struct LunaShell<H> {
    pub input: Vec<char>,
    pub commands: Vec<Vec<char>>,
    pub handlers: Vec<H>,
}

impl<H> LunaShell<H> {
    /// One handler per registered trigger, and an input that fits on the
    /// prompt row.
    pub open spec fn wf(&self) -> bool {
        &&& self.input@.len() <= 39
        &&& self.commands@.len() == self.handlers@.len()
    }

    /// A fresh shell: nothing typed, nothing registered.
    pub fn new() -> (r: LunaShell<H>)
        ensures
            r.wf(),
            r.input@.len() == 0,
            r.commands@.len() == 0,
            r.handlers@.len() == 0,
    {
        LunaShell { input: Vec::new(), commands: Vec::new(), handlers: Vec::new() }
    }

    /// Register a command: append its trigger and its handler to the table.
    /// Registration order is significant: the earliest matching trigger
    /// wins.
    pub fn add_command(&mut self, trigger: Vec<char>, handler: H)
        requires
            old(self).wf(),
        ensures
            final(self).wf(),
            final(self).input == old(self).input,
            final(self).commands@ == old(self).commands@.push(trigger),
            final(self).handlers@ == old(self).handlers@.push(handler),
    {
        self.commands.push(trigger);
        self.handlers.push(handler);
    }

    /// Consume one resolved keyboard character. The null character only
    /// redraws. While a listener is installed, any other key is forwarded
    /// verbatim and the shell's own input and table are untouched. A newline
    /// completes the line: the input is echoed, the first registered
    /// whole-token match is selected, and either "Unknown Command." is
    /// printed (and the event finished) or the matched handler's invocation
    /// is handed to the caller. Backspace removes the last input character;
    /// any other key is appended; both are mirrored into the echo and drawn.
    pub fn keyboard_event<L>(
        &mut self,
        key: char,
        renderer: &mut LunaRenderer,
        listeners: &LunaListeners<L>,
        writer: &mut Writer,
    ) -> (r: KeyOutcome)
        requires
            old(self).wf(),
            old(renderer).wf(),
            old(writer).wf(),
            key != '\u{0000}' && key != '\n' && key != '\u{0008}'
                && listeners.key_listeners@.len() == 0 ==> old(self).input@.len() <= 38,
        ensures
            final(self).wf(),
            final(renderer).wf(),
            final(writer).wf(),
            key == '\u{0000}' ==> *final(self) == *old(self) && r is Handled && draw_rel(
                old(renderer)@,
                final(renderer)@,
                *old(writer),
                *final(writer),
            ),
            key != '\u{0000}' && listeners.key_listeners@.len() > 0 ==> *final(self) == *old(self)
                && *final(renderer) == *old(renderer) && *final(writer) == *old(writer) && r == (
            KeyOutcome::Forward { key }),
            key == '\n' && listeners.key_listeners@.len() == 0 && completion_unknown(
                cmds_view(old(self).commands@),
                old(self).input@,
            ) ==> unknown_post(
                *old(self),
                *final(self),
                old(renderer)@,
                final(renderer)@,
                *old(writer),
                *final(writer),
                r,
            ),
            key == '\n' && listeners.key_listeners@.len() == 0 && !completion_unknown(
                cmds_view(old(self).commands@),
                old(self).input@,
            ) ==> dispatch_post(
                *old(self),
                *final(self),
                old(renderer)@,
                final(renderer)@,
                *old(writer),
                *final(writer),
                r,
            ),
            key == '\u{0008}' && listeners.key_listeners@.len() == 0 ==> {
                let shorter = if old(self).input@.len() > 0 {
                    old(self).input@.drop_last()
                } else {
                    old(self).input@
                };
                &&& final(self).input@ == shorter
                &&& final(self).commands == old(self).commands
                &&& final(self).handlers == old(self).handlers
                &&& r is Handled
                &&& draw_rel(
                    (RendView {
                        input: if old(self).input@.len() > 0 {
                            shorter
                        } else {
                            old(renderer)@.input
                        },
                        ..old(renderer)@
                    }),
                    final(renderer)@,
                    *old(writer),
                    *final(writer),
                )
            },
            key != '\u{0000}' && key != '\n' && key != '\u{0008}'
                && listeners.key_listeners@.len() == 0 ==> {
                &&& final(self).input@ == old(self).input@.push(key)
                &&& final(self).commands == old(self).commands
                &&& final(self).handlers == old(self).handlers
                &&& r is Handled
                &&& draw_rel(
                    (RendView { input: old(self).input@.push(key), ..old(renderer)@ }),
                    final(renderer)@,
                    *old(writer),
                    *final(writer),
                )
            },
    {
        if key == '\u{0000}' {
            renderer.draw(writer);
            return KeyOutcome::Handled;
        }
        if listeners.key_listeners.len() > 0 {
            return KeyOutcome::Forward { key };
        }
        if key == '\n' {
            return self.finish_line(renderer, writer);
        }
        if key == '\u{0008}' {
            if self.input.len() > 0 {
                self.input.pop();
                proof {
                    assert(self.input@ =~= old(self).input@.drop_last());
                }
                renderer.input = clone_chars(&self.input);
            }
            proof {
                if old(self).input@.len() > 0 {
                    assert(renderer@ =~= (RendView {
                        input: old(self).input@.drop_last(),
                        ..old(renderer)@
                    }));
                }
            }
            renderer.draw(writer);
            return KeyOutcome::Handled;
        }
        self.input.push(key);
        renderer.input = clone_chars(&self.input);
        proof {
            assert(renderer@ =~= (RendView { input: old(self).input@.push(key), ..old(
                renderer,
            )@ }));
        }
        renderer.draw(writer);
        KeyOutcome::Handled
    }

    /// Complete the current input line: echo it, look it up in the command
    /// table, and either finish an unknown command or hand the matched
    /// handler's invocation to the caller.
    fn finish_line(&mut self, renderer: &mut LunaRenderer, writer: &mut Writer) -> (r: KeyOutcome)
        requires
            old(self).wf(),
            old(renderer).wf(),
            old(writer).wf(),
        ensures
            final(self).wf(),
            final(renderer).wf(),
            final(writer).wf(),
            completion_unknown(cmds_view(old(self).commands@), old(self).input@) ==> unknown_post(
                *old(self),
                *final(self),
                old(renderer)@,
                final(renderer)@,
                *old(writer),
                *final(writer),
                r,
            ),
            !completion_unknown(cmds_view(old(self).commands@), old(self).input@)
                ==> dispatch_post(
                *old(self),
                *final(self),
                old(renderer)@,
                final(renderer)@,
                *old(writer),
                *final(writer),
                r,
            ),
    {
        let input = clone_chars(&self.input);
        echo_input(renderer, &input);
        let ghost cmds = cmds_view(self.commands@);
        let mut found = false;
        let mut idx: usize = 0;
        if input.len() > 0 {
            let ncmds = self.commands.len();
            while !found && idx < ncmds
                invariant
                    idx <= ncmds,
                    ncmds == self.commands@.len(),
                    cmds == cmds_view(self.commands@),
                    input@ == old(self).input@,
                    !found ==> forall|j: int|
                        0 <= j < idx ==> !cmd_matches(input@, #[trigger] cmds[j]),
                    found ==> is_first_match(cmds, input@, idx as int),
                decreases ncmds - idx + (if found {
                    0int
                } else {
                    1int
                }),
            {
                proof {
                    assert(cmds[idx as int] == self.commands@[idx as int]@);
                }
                if matches_cmd(&input, &self.commands[idx]) {
                    found = true;
                } else {
                    idx = idx + 1;
                }
            }
        }
        let live = found && self.commands[idx].len() > 0;
        if live {
            proof {
                assert(cmds[idx as int] == self.commands@[idx as int]@);
                assert(is_first_match(cmds, input@, idx as int));
                assert(cmds[idx as int].len() > 0);
                assert forall|i: int|
                    !(#[trigger] is_first_match(cmds, input@, i) && cmds[i].len() == 0) by {
                    if is_first_match(cmds, input@, i) {
                        lemma_first_match_unique(cmds, input@, i, idx as int);
                    }
                }
                assert(!completion_unknown(cmds, input@));
            }
            let cmd_len = self.commands[idx].len();
            let mut args: Vec<char> = Vec::new();
            if input.len() > cmd_len {
                let mut k = cmd_len + 1;
                while k < input.len()
                    invariant
                        cmd_len + 1 <= k <= input.len(),
                        args@ == input@.subrange(cmd_len + 1, k as int),
                    decreases input.len() - k,
                {
                    args.push(input[k]);
                    proof {
                        assert(args@ =~= input@.subrange(cmd_len + 1, k + 1));
                    }
                    k = k + 1;
                }
            }
            proof {
                assert(args@ =~= args_of(input@, cmds[idx as int]));
            }
            return KeyOutcome::Dispatch { index: idx, args };
        }
        proof {
            if input@.len() > 0 {
                if found {
                    assert(cmds[idx as int] == self.commands@[idx as int]@);
                    assert(is_first_match(cmds, input@, idx as int) && cmds[idx as int].len()
                        == 0);
                    assert(completion_unknown(cmds, input@));
                } else {
                    assert(no_match(cmds, input@));
                }
            }
            assert(completion_unknown(cmds, input@));
            reveal_strlit("Unknown Command.");
            assert(renderer@.lines.last().chars.len() == 0);
            lemma_append_text_wf_fwd(renderer@.lines, "Unknown Command."@, Color::LightRed);
        }
        renderer.set_color(Color::LightRed);
        renderer.write_string("Unknown Command.");
        self.input = Vec::new();
        renderer.input = Vec::new();
        proof {
            lemma_append_char_wf_fwd(renderer@.lines, '\n', Color::LightRed);
        }
        renderer.write_char('\n');
        proof {
            assert(renderer@ =~= (RendView {
                input: Seq::<char>::empty(),
                last_input_length: old(renderer)@.last_input_length,
                lines: unknown_mid_lines(old(renderer)@.lines, old(self).input@),
                color: Color::LightRed,
                enabled: old(renderer)@.enabled,
            }));
        }
        renderer.draw(writer);
        KeyOutcome::Handled
    }

    /// Finish a dispatched command after its handler has run: reset the
    /// input line and its echo, close the output line, and redraw.
    pub fn finish_dispatch(&mut self, renderer: &mut LunaRenderer, writer: &mut Writer)
        requires
            old(self).wf(),
            old(renderer).wf(),
            old(writer).wf(),
        ensures
            final(self).wf(),
            final(renderer).wf(),
            final(writer).wf(),
            final(self).input@.len() == 0,
            final(self).commands == old(self).commands,
            final(self).handlers == old(self).handlers,
            draw_rel(
                (RendView {
                    input: Seq::<char>::empty(),
                    lines: append_char(old(renderer)@.lines, '\n', old(renderer)@.color),
                    ..old(renderer)@
                }),
                final(renderer)@,
                *old(writer),
                *final(writer),
            ),
    {
        self.input = Vec::new();
        renderer.input = Vec::new();
        proof {
            lemma_append_char_wf_fwd(renderer@.lines, '\n', renderer.color);
        }
        renderer.write_char('\n');
        proof {
            assert(renderer@ =~= (RendView {
                input: Seq::<char>::empty(),
                lines: append_char(old(renderer)@.lines, '\n', old(renderer)@.color),
                ..old(renderer)@
            }));
        }
        renderer.draw(writer);
    }
}

/// What an unknown-command completion leaves behind: the dispatcher's input
/// and its echo reset, the echo, the message and a closing newline appended
/// in light red, and the frame redrawn.
pub open spec fn unknown_post<H>(
    s0: LunaShell<H>,
    s1: LunaShell<H>,
    r0: RendView,
    r1: RendView,
    w0: Writer,
    w1: Writer,
    out: KeyOutcome,
) -> bool {
    &&& out is Handled
    &&& s1.input@.len() == 0
    &&& s1.commands == s0.commands
    &&& s1.handlers == s0.handlers
    &&& r1.input.len() == 0
    &&& r1.color == Color::LightRed
    &&& draw_rel(
        (RendView {
            input: Seq::<char>::empty(),
            last_input_length: r0.last_input_length,
            lines: unknown_mid_lines(r0.lines, s0.input@),
            color: Color::LightRed,
            enabled: r0.enabled,
        }),
        r1,
        w0,
        w1,
    )
}

/// What a matched completion leaves behind: the input is echoed and the
/// caller is told to invoke the first matching command's handler on exactly
/// the characters after the trigger and its separating space; the
/// dispatcher's own state, the input echo and the surfaces are untouched
/// until [`LunaShell::finish_dispatch`].
pub open spec fn dispatch_post<H>(
    s0: LunaShell<H>,
    s1: LunaShell<H>,
    r0: RendView,
    r1: RendView,
    w0: Writer,
    w1: Writer,
    out: KeyOutcome,
) -> bool {
    let cmds = cmds_view(s0.commands@);
    &&& out matches KeyOutcome::Dispatch { index, args } && {
        &&& is_first_match(cmds, s0.input@, index as int)
        &&& cmds[index as int].len() > 0
        &&& args@ == args_of(s0.input@, cmds[index as int])
    }
    &&& s1 == s0
    &&& r1 == (RendView {
        lines: echo_lines(r0.lines, s0.input@),
        color: Color::DarkGray,
        ..r0
    })
    &&& w1 == w0
}

/// Echo one submitted input line to the scrollback: a fresh line holding a
/// blue `>` and the input in light gray, closed by a newline; the output
/// color ends dark gray.
fn echo_input(renderer: &mut LunaRenderer, input: &Vec<char>)
    requires
        old(renderer).wf(),
        input@.len() <= 39,
    ensures
        final(renderer).wf(),
        final(renderer)@ == (RendView {
            lines: echo_lines(old(renderer)@.lines, input@),
            color: Color::DarkGray,
            ..old(renderer)@
        }),
        final(renderer)@.lines.len() > 0,
        final(renderer)@.lines.last() == empty_line(),
{
    let ghost r0 = old(renderer)@;
    proof {
        lemma_append_char_wf_fwd(r0.lines, '\n', r0.color);
    }
    renderer.write_char('\n');
    proof {
        assert(append_char(r0.lines, '\n', r0.color) == append_char(
            r0.lines,
            '\n',
            Color::Blue,
        ));
    }
    renderer.set_color(Color::Blue);
    proof {
        assert(renderer@.lines.last() == empty_line());
        lemma_append_char_wf_fwd(renderer@.lines, '>', Color::Blue);
    }
    renderer.write_char('>');
    renderer.set_color(Color::LightGray);
    let ghost b = renderer@.lines;
    proof {
        lemma_append_printable_grow(append_char(r0.lines, '\n', Color::Blue), '>', Color::Blue);
        assert(b.last().chars.len() == 1);
        assert(b == append_text(b, input@.take(0), Color::LightGray));
    }
    let n = input.len();
    for i in 0..n
        invariant
            n == input@.len() <= 39,
            renderer.wf(),
            renderer@ == (RendView {
                lines: append_text(b, input@.take(i as int), Color::LightGray),
                color: Color::LightGray,
                ..r0
            }),
            renderer@.lines.len() > 0,
            renderer@.lines.last().chars.len() <= 1 + i,
    {
        let c = input[i];
        proof {
            lemma_append_char_wf_fwd(renderer@.lines, c, Color::LightGray);
            lemma_append_text_snoc(b, input@.take(i as int), input@[i as int], Color::LightGray);
            assert(input@.take(i + 1) =~= input@.take(i as int).push(input@[i as int]));
            if printable(c) {
                lemma_append_printable_grow(renderer@.lines, c, Color::LightGray);
            }
        }
        renderer.write_char(c);
    }
    proof {
        assert(input@.take(n as int) =~= input@);
        lemma_append_char_wf_fwd(renderer@.lines, '\n', Color::LightGray);
    }
    renderer.set_color(Color::DarkGray);
    proof {
        lemma_append_char_wf_fwd(renderer@.lines, '\n', Color::DarkGray);
    }
    renderer.write_char('\n');
    proof {
        assert(renderer@ == (RendView {
            lines: echo_lines(r0.lines, input@),
            color: Color::DarkGray,
            ..r0
        }));
    }
}

/// Law: after a repaint the scrollback holds at most 21 lines — the newest
/// ones, in order, with the oldest evicted — and every kept line keeps its
/// characters.
pub proof fn lemma_scrollback_bound(pre: Seq<LineView>, post: Seq<LineView>)
    requires
        lines_redrawn(pre, post),
    ensures
        post.len() <= 21,
        pre.len() <= 21 ==> post.len() == pre.len(),
        pre.len() > 21 ==> post.len() == 21,
        forall|i: int|
            0 <= i < post.len() ==> (#[trigger] post[i]).chars == pre[pre.len() - post.len()
                + i].chars,
{
}

/// Law: typing that strictly lengthens the input between draws never
/// triggers a scrollback repaint. `r0 -> r1` is one draw; editing then
/// lengthens the input without touching the scrollback or the recorded
/// length (`r2`); the next draw (`r2 -> r3`) leaves the scrollback exactly
/// as it was.
pub proof fn lemma_typing_no_repaint(
    r0: RendView,
    r1: RendView,
    r2: RendView,
    r3: RendView,
    w0: Writer,
    w1: Writer,
    w2: Writer,
    w3: Writer,
)
    requires
        r0.enabled,
        r0.input.len() <= 39,
        draw_rel(r0, r1, w0, w1),
        r2.enabled,
        r2.lines == r1.lines,
        r2.last_input_length == r1.last_input_length,
        r2.input.len() > r0.input.len(),
        r2.input.len() <= 39,
        draw_rel(r2, r3, w2, w3),
    ensures
        r3.lines == r1.lines,
{
    assert(r1.last_input_length == r0.input.len() as u16);
    assert(r0.input.len() as u16 == r0.input.len());
    assert(r2.input.len() as u16 == r2.input.len());
    assert(!((r2.input.len() as u16) <= r2.last_input_length));
}

} // verus!

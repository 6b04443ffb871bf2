use vstd::prelude::*;
use crate::font::{line_advance_of, AgbFont};
use crate::lines::{lemma_next_line_no_newline, lemma_next_line_shape, next_line_spec};
use crate::metrics::{GlyphMetrics, NEWLINE};
use crate::renderer::{glyph_px, x_offset_spec};
use crate::text_format::TextAlign;

verus! {

/// Longest text that one draw call lays out: with at most 382 pixels per
/// byte, every pixel coordinate of the layout stays far inside `i32`. The
/// bound, like the bound on draw positions, is conservative: it leaves
/// headroom for the widest advance and the farthest position at once, far
/// beyond what a screen of 240 x 160 pixels shows.
pub const MAX_DRAW_LEN: usize = 500_000;

/// The font's geometry is consistent: glyphs at most 255 rows of at most 32
/// words, each glyph `row_u32s * height` words, and pixel data for every
/// glyph the widths describe.
pub open spec fn drawable<T: AgbFont>(font: &T) -> bool {
    &&& font.height_view() <= 255
    &&& font.row_u32s_view() <= 32
    &&& font.glyph_size_view() == font.row_u32s_view() * font.height_view()
    &&& font.data_view().len() >= font.glyph_size_view() * font.metrics().widths.len()
    &&& 0 <= font.metrics().offset
}

/// Packed pixel data of the glyph of `c`.
pub open spec fn glyph_data<T: AgbFont>(font: &T, c: u8) -> Seq<u32> {
    let i = c - font.metrics().offset;
    font.data_view().subrange(i * font.glyph_size_view(), (i + 1) * font.glyph_size_view())
}

/// The glyph of a covered byte lies inside the pixel data.
pub proof fn lemma_glyph_in_data<T: AgbFont>(font: &T, c: u8)
    requires
        drawable(font),
        font.metrics().covers(c),
    ensures
        (c - font.metrics().offset + 1) * font.glyph_size_view() <= font.data_view().len(),
        0 <= (c - font.metrics().offset) * font.glyph_size_view(),
{
    let i = c - font.metrics().offset;
    let n = font.metrics().widths.len() as int;
    let gs = font.glyph_size_view() as int;
    assert((i + 1) * gs <= n * gs) by (nonlinear_arith)
        requires
            0 <= i < n,
            0 <= gs,
    ;
    assert(0 <= i * gs) by (nonlinear_arith)
        requires
            0 <= i,
            0 <= gs,
    ;
}

/// The visual lines of `t`, in order, as `(bytes, width)` pairs: what the
/// `lines` iterator yields.
pub open spec fn visual_lines(m: GlyphMetrics, t: Seq<u8>, wrap_px: Option<u32>, word_wrap: bool, spacing: int) -> Seq<(Seq<u8>, int)>
    decreases t.len(),
{
    if t.len() == 0 {
        Seq::empty()
    } else {
        let (e, rest, w) = next_line_spec(m, t, wrap_px, word_wrap, spacing);
        if 0 < rest <= t.len() {
            seq![(t.take(e), w)] + visual_lines(m, t.skip(rest), wrap_px, word_wrap, spacing)
        } else {
            seq![(t.take(e), w)]
        }
    }
}

/// A non-empty text starts with its next visual line.
pub proof fn lemma_visual_lines_unfold(m: GlyphMetrics, t: Seq<u8>, wrap_px: Option<u32>, word_wrap: bool, spacing: int)
    requires
        t.len() > 0,
    ensures
        ({
            let (e, rest, w) = next_line_spec(m, t, wrap_px, word_wrap, spacing);
            &&& visual_lines(m, t, wrap_px, word_wrap, spacing) == seq![(t.take(e), w)] + visual_lines(
                m,
                t.skip(rest),
                wrap_px,
                word_wrap,
                spacing,
            )
            &&& 0 <= e <= rest <= t.len()
            &&& rest >= 1
            &&& forall|j: int| 0 <= j < e ==> #[trigger] t[j] != NEWLINE
        }),
{
    lemma_next_line_shape(m, t, wrap_px, word_wrap, spacing);
    lemma_next_line_no_newline(m, t, wrap_px, word_wrap, spacing);
}

/// Where the glyphs of one line go: byte `n` of the line is drawn with its
/// left edge at `start_x` plus the line's width up to and including it, less
/// its own width, on the row `y`.
pub open spec fn line_placements(m: GlyphMetrics, line: Seq<u8>, start_x: int, y: int, spacing: int) -> Seq<(u8, int, int)> {
    Seq::new(line.len(), |n: int| (line[n], start_x + m.prefix_width(line, spacing, n + 1) - m.width(line[n]), y))
}

/// Where the glyphs of visual lines go: line `i` starts at its aligned
/// offset from `pos_x` on row `pos_y + i * advance`.
pub open spec fn text_placements(
    m: GlyphMetrics,
    lines: Seq<(Seq<u8>, int)>,
    pos_x: int,
    pos_y: int,
    align: TextAlign,
    spacing: int,
    advance: int,
) -> Seq<(u8, int, int)>
    decreases lines.len(),
{
    if lines.len() == 0 {
        Seq::empty()
    } else {
        let i = lines.len() - 1;
        text_placements(m, lines.drop_last(), pos_x, pos_y, align, spacing, advance) + line_placements(
            m,
            lines.last().0,
            pos_x + x_offset_spec(lines.last().1, align),
            pos_y + i * advance,
            spacing,
        )
    }
}

/// Screen pixel `(x, y)` of the glyphs placed in order on a blank screen: a
/// later inked pixel covers an earlier one; glyphs whose left edge is at or
/// past `cutoff` are not drawn.
pub open spec fn overlay_px<T: AgbFont>(font: &T, ps: Seq<(u8, int, int)>, cutoff: Option<int>, x: int, y: int) -> u32
    decreases ps.len(),
{
    if ps.len() == 0 {
        0
    } else {
        let prev = overlay_px(font, ps.drop_last(), cutoff, x, y);
        let (c, gx, gy) = ps.last();
        let g = if cutoff matches Some(cx) && gx >= cx {
            0
        } else {
            glyph_px(
                glyph_data(font, c),
                font.row_u32s_view() as int,
                font.height_view() as int,
                x - gx,
                y - gy,
            )
        };
        if g != 0 {
            g
        } else {
            prev
        }
    }
}

/// Some pixel of the tile at column `tx`, row `ty` is inked by the glyphs
/// placed at `ps` (those left of `cutoff`).
pub open spec fn glyphs_ink_tile<T: AgbFont>(font: &T, ps: Seq<(u8, int, int)>, cutoff: Option<int>, tx: int, ty: int) -> bool {
    exists|x: int, y: int| x / 8 == tx && y / 8 == ty && #[trigger] overlay_px(font, ps, cutoff, x, y) != 0
}

/// The widest of the line widths, 0 for no line.
pub open spec fn max_line_width(lines: Seq<(Seq<u8>, int)>) -> int
    decreases lines.len(),
{
    if lines.len() == 0 {
        0
    } else {
        let m = max_line_width(lines.drop_last());
        if lines.last().1 > m {
            lines.last().1
        } else {
            m
        }
    }
}

/// What drawing the visual lines returns: the cursor after the last glyph
/// relative to the origin (x past it, y at the top of the last line) and the
/// width of the longest line; `(0, 0, 0)` for no line.
pub open spec fn layout_result(
    m: GlyphMetrics,
    lines: Seq<(Seq<u8>, int)>,
    align: TextAlign,
    spacing: int,
    advance: int,
) -> (int, int, int) {
    if lines.len() == 0 {
        (0, 0, 0)
    } else {
        let last = lines.last();
        (
            x_offset_spec(last.1, align) + m.prefix_width(last.0, spacing, last.0.len() as int),
            (lines.len() - 1) * advance,
            max_line_width(lines),
        )
    }
}

/// Line advance of a font with a line spacing.
pub open spec fn font_advance<T: AgbFont>(font: &T, line_spacing: i8) -> int {
    line_advance_of(font.height_view() as int, line_spacing as int)
}

} // verus!

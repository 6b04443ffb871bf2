use vstd::prelude::*;
use crate::font::{is_break_byte, measure_from, measure_spec, size_lines, size_spec, line_advance_of, word_end};
use crate::metrics::{advance_of, lemma_prefix_width_bounds, GlyphMetrics, HYPHEN, NEWLINE, SPACE};
use crate::create::{
    apply_overrides, create_error, created_font, font_widths, grid_of, header_bytes, lemma_apply_overrides_len,
    lemma_font_widths_len, max_width, monospace_widths, override_out_of_range, override_slot, sheet_widths,
};
use crate::full::full_blob_ok;
use crate::printable::printable_blob_ok;
use crate::font::AgbFont;
use crate::layout::{font_advance, layout_result, max_line_width, visual_lines};
use crate::lines::{fragment_spec, hyphen_end, lemma_next_line_shape, next_line_spec, word_wrap_from};
use crate::sprite_renderer::{drawn_count, sprite_draw_result};
use crate::text_format::{TextFormat, TextOverflow};
use crate::text_renderer::{
    char_draw_layout, char_draw_result, char_drawn_px, char_layout_from, line_width_from, overflow_cutoff, overflow_wrap,
    overflow_wrap_px, CharLayout,
};
use crate::layout::{glyphs_ink_tile, overlay_px};
use crate::tiles::{screen_px, tracks};
use crate::renderer::x_offset_spec;
use crate::text_format::TextAlign;
use crate::arg_tokens::lex_from;
use crate::macro_args::{
    apply_option, ident_word, initial_args, options_from, parse_args_spec, parse_vis, skip_comma, widths_body, ArgsView,
    Visibility, Word,
};
use crate::paste_back::{
    ascii, declaration_head, entry_pairs, first_code_point, lemma_block_pastes, lemma_declaration_lex, lemma_full_lex, lemma_widths_body_reads, lines_after,
    pasted_block,
};
use crate::font_decl::{entries_of, entry_chars, entry_rows, max_len, row_chars, row_pieces};
use crate::edit::{edited_widths, glyph_count_of, glyph_index_of, lemma_edited_widths_len};

verus! {

/// Every glyph is at least one pixel wide and every byte of `t` has one.
pub open spec fn solid_text(m: GlyphMetrics, t: Seq<u8>) -> bool {
    forall|i: int| 0 <= i < t.len() ==> m.covers(#[trigger] t[i]) && m.width(t[i]) >= 1
}

/// Number of line feeds in `t[i..]`.
pub open spec fn newlines_from(t: Seq<u8>, i: int) -> int
    decreases t.len() - i,
{
    if i < 0 || i >= t.len() {
        0
    } else {
        (if t[i] == NEWLINE {
            1int
        } else {
            0int
        }) + newlines_from(t, i + 1)
    }
}

proof fn lemma_unwrapped_line(m: GlyphMetrics, t: Seq<u8>, spacing: int, i: int)
    requires
        0 <= i <= t.len(),
        forall|j: int| 0 <= j < t.len() ==> #[trigger] t[j] != NEWLINE,
    ensures
        measure_from(m, t, None, spacing, i, m.prefix_width(t, spacing, i)) == (
            m.prefix_width(t, spacing, t.len() as int),
            t.len() as int,
        ),
    decreases t.len() - i,
{
    if i < t.len() {
        lemma_unwrapped_line(m, t, spacing, i + 1);
    }
}

/// `(width, height)` of a text without line feeds, not wrapped: one line as
/// wide as the sum of its glyphs' steps and one glyph high, whatever the line
/// spacing.
pub proof fn law_single_line_size(
    m: GlyphMetrics,
    height: int,
    t: Seq<u8>,
    spacing: int,
    line_spacing: int,
)
    requires
        -128 <= spacing <= 127,
        t.len() > 0,
        forall|j: int| 0 <= j < t.len() ==> #[trigger] t[j] != NEWLINE,
        forall|j: int| 0 <= j < t.len() ==> m.covers(#[trigger] t[j]),
    ensures
        size_spec(m, height, t, None, spacing, line_spacing) == (
            m.prefix_width(t, spacing, t.len() as int),
            height,
        ),
{
    assert(m.prefix_width(t, spacing, 0) == 0);
    lemma_unwrapped_line(m, t, spacing, 0);
    lemma_prefix_width_bounds(m, t, spacing, t.len() as int);
    let rest = t.skip(t.len() as int);
    assert(rest.len() == 0);
    assert(size_lines(m, rest, None, spacing) == (0int, 0int));
    assert(size_lines(m, t, None, spacing) == (m.prefix_width(t, spacing, t.len() as int), 1int));
}

/// One glyph alone is as wide as its advance width, whatever the spacing.
pub proof fn law_one_glyph_ignores_spacing(m: GlyphMetrics, c: u8, spacing: int)
    requires
        m.covers(c),
    ensures
        m.prefix_width(seq![c], spacing, 1) == m.width(c),
{
    assert(seq![c][0] == c);
    assert(m.prefix_width(seq![c], spacing, 0) == 0);
}

/// With widths of at least one pixel and non-negative spacing, every glyph
/// after the first adds exactly `spacing` pixels.
pub proof fn law_spacing_adds_per_gap(m: GlyphMetrics, t: Seq<u8>, spacing: int, k: int)
    requires
        0 <= spacing,
        1 <= k <= t.len(),
        solid_text(m, t),
    ensures
        m.prefix_width(t, spacing, k) == m.prefix_width(t, 0, k) + (k - 1) * spacing,
    decreases k,
{
    assert(m.covers(t[k - 1]) && m.width(t[k - 1]) >= 1);
    let w = m.width(t[k - 1]);
    if k > 1 {
        law_spacing_adds_per_gap(m, t, spacing, k - 1);
        assert((k - 2) * spacing + spacing == (k - 1) * spacing) by (nonlinear_arith);
        assert(m.step(t[k - 1], spacing, false) == w + spacing);
        assert(m.step(t[k - 1], 0, false) == w);
    } else {
        assert(m.prefix_width(t, spacing, 0) == 0);
        assert(m.prefix_width(t, 0, 0) == 0);
    }
}

/// Negative spacing never widens a line, and each glyph still advances at
/// least one pixel.
pub proof fn law_negative_spacing_tightens(m: GlyphMetrics, t: Seq<u8>, spacing: int, k: int)
    requires
        spacing <= 0,
        0 <= k <= t.len(),
        solid_text(m, t),
    ensures
        k <= m.prefix_width(t, spacing, k) <= m.prefix_width(t, 0, k),
    decreases k,
{
    if k > 0 {
        assert(m.covers(t[k - 1]) && m.width(t[k - 1]) >= 1);
        law_negative_spacing_tightens(m, t, spacing, k - 1);
    }
}

proof fn lemma_newline_run(m: GlyphMetrics, t: Seq<u8>, spacing: int, i: int, w: int)
    requires
        0 <= i <= t.len(),
    ensures
        ({
            let (_, n) = measure_from(m, t, None, spacing, i, w);
            &&& i <= n <= t.len()
            &&& forall|j: int| i <= j < n - 1 ==> #[trigger] t[j] != NEWLINE
            &&& (n < t.len() || (n > i && t[n - 1] == NEWLINE) || n == t.len()) 
            &&& (n > i && n - 1 < t.len() && t[n - 1] == NEWLINE) || (n == t.len() && forall|j: int| i <= j < t.len() ==> #[trigger] t[j] != NEWLINE)
        }),
    decreases t.len() - i,
{
    if i < t.len() && t[i] != NEWLINE {
        lemma_newline_run(m, t, spacing, i + 1, w + m.step(t[i], spacing, i == 0));
    }
}

proof fn lemma_newlines_split(t: Seq<u8>, n: int, i: int)
    requires
        0 <= i <= n <= t.len(),
    ensures
        newlines_from(t, i) == newlines_from(t.subrange(0, n), i) + newlines_from(t.skip(n), 0),
    decreases t.len() - i,
{
    if i < n {
        lemma_newlines_split(t, n, i + 1);
    } else {
        lemma_newlines_skip(t, n, 0);
    }
}

proof fn lemma_newlines_skip(t: Seq<u8>, n: int, i: int)
    requires
        0 <= n <= t.len(),
        0 <= i,
    ensures
        newlines_from(t, n + i) == newlines_from(t.skip(n), i),
    decreases t.len() - n - i,
{
    if n + i < t.len() {
        lemma_newlines_skip(t, n, i + 1);
    }
}

proof fn lemma_no_newlines_count(t: Seq<u8>, i: int, e: int)
    requires
        0 <= i <= e <= t.len(),
        forall|j: int| i <= j < e ==> #[trigger] t[j] != NEWLINE,
    ensures
        newlines_from(t.subrange(0, e), i) == 0,
    decreases e - i,
{
    if i < e {
        lemma_no_newlines_count(t, i + 1, e);
    }
}

/// Without wrapping, a text has one line per line feed, plus one when it does
/// not end with a line feed; so its height is one glyph plus one line advance
/// per further line.
pub proof fn law_unwrapped_line_count(m: GlyphMetrics, t: Seq<u8>, spacing: int)
    requires
        t.len() > 0,
    ensures
        size_lines(m, t, None, spacing).1 == newlines_from(t, 0) + (if t[t.len() - 1] == NEWLINE {
            0int
        } else {
            1int
        }),
    decreases t.len(),
{
    let (w, n) = measure_from(m, t, None, spacing, 0, 0);
    lemma_newline_run(m, t, spacing, 0, 0);
    lemma_newlines_split(t, n, 0);
    let sub = t.subrange(0, n);
    let rest = t.skip(n);
    assert(n >= 1);
    if n > 0 && t[n - 1] == NEWLINE {
        lemma_no_newlines_count(t, 0, n - 1);
        assert(sub[n - 1] == NEWLINE);
        assert(newlines_from(sub, n) == 0);
        assert(newlines_from(sub, n - 1) == 1);
        lemma_split_tail(sub, 0, n - 1);
        assert(newlines_from(sub, 0) == 1);
    } else {
        lemma_no_newlines_count(t, 0, n);
        assert(newlines_from(sub, 0) == 0);
        assert(n == t.len());
    }
    assert(newlines_from(t, 0) == newlines_from(sub, 0) + newlines_from(rest, 0));
    if n < t.len() {
        law_unwrapped_line_count(m, rest, spacing);
        assert(rest[rest.len() - 1] == t[t.len() - 1]);
        assert(size_lines(m, t, None, spacing).1 == size_lines(m, rest, None, spacing).1 + 1);
    } else {
        assert(rest.len() == 0);
        assert(newlines_from(rest, 0) == 0);
        assert(size_lines(m, rest, None, spacing).1 == 0);
        assert(size_lines(m, t, None, spacing).1 == 1);
    }
}

proof fn lemma_split_tail(t: Seq<u8>, i: int, e: int)
    requires
        0 <= i <= e < t.len(),
        forall|j: int| i <= j < e ==> #[trigger] t[j] != NEWLINE,
    ensures
        newlines_from(t, i) == newlines_from(t, e),
    decreases e - i,
{
    if i < e {
        lemma_split_tail(t, i + 1, e);
    }
}

/// The height of an unwrapped text: one glyph height plus one line advance per
/// line after the first.
pub proof fn law_unwrapped_height(
    m: GlyphMetrics,
    height: int,
    t: Seq<u8>,
    spacing: int,
    line_spacing: int,
)
    requires
        t.len() > 0,
    ensures
        size_spec(m, height, t, None, spacing, line_spacing).1 == height + (newlines_from(t, 0) + (
        if t[t.len() - 1] == NEWLINE {
            0int
        } else {
            1int
        }) - 1) * line_advance_of(height, line_spacing),
{
    law_unwrapped_line_count(m, t, spacing);
}

/// A packed font is a font blob: a small font parses as a printable font and
/// a full one as a full font, each with the stored widths at bytes
/// `3..3 + glyph_count`, the bold strength as right overhang right after
/// them, and the cell widened by the bold strength.
pub proof fn law_created_font_parses(
    bytes: Seq<u8>,
    img: crate::parsing::SheetImage,
    cols: u32,
    rows: u32,
    monospace: Option<Option<u8>>,
    overrides: Seq<(u8, u8)>,
    bold: u8,
    recolor: Seq<(u8, u8)>,
)
    requires
        create_error(img, cols, rows, overrides, bold, recolor) is None,
        created_font(bytes, img, cols, rows, monospace, overrides, bold, recolor),
    ensures
        ({
            let grid = grid_of(img.width as int, img.height as int, cols, rows);
            &&& grid.mode_byte == 0 ==> printable_blob_ok(bytes)
            &&& grid.mode_byte == 1 ==> full_blob_ok(bytes)
            &&& bytes[1] == grid.cell_width + bold
            &&& bytes[2] == grid.cell_height
            &&& bytes.subrange(3, 3 + grid.glyph_count) == font_widths(img, grid, monospace, overrides)
            &&& bytes[3 + grid.glyph_count] == bold
        }),
{
    let grid = grid_of(img.width as int, img.height as int, cols, rows);
    let widths = font_widths(img, grid, monospace, overrides);
    crate::create::lemma_font_widths_len(img, grid, monospace, overrides);
    let header = header_bytes(grid.mode_byte, (grid.cell_width + bold) as u8, grid.cell_height, widths, bold);
    let hl = header.len() as int;
    assert(bytes.subrange(0, hl) == header);
    assert(bytes[0] == header[0]);
    assert(bytes[1] == header[1]);
    assert(bytes[2] == header[2]);
    assert(bytes[3 + grid.glyph_count] == header[3 + grid.glyph_count]);
    let ru2 = (grid.cell_width + bold + 7) / 8;
    let gc = grid.glyph_count as int;
    let ch = grid.cell_height as int;
    assert(4 * (gc * ch * ru2) == ru2 * ch * gc * 4) by (nonlinear_arith);
    assert(hl == if grid.mode_byte == 0 { 100int } else { 260int });
    assert(bytes.subrange(3, 3 + grid.glyph_count) =~= widths) by {
        assert forall|i: int| 0 <= i < grid.glyph_count implies #[trigger] bytes.subrange(3, 3 + grid.glyph_count)[i]
            == widths[i] by {
            assert(bytes[3 + i] == header[3 + i]);
        }
    }
}

/// `monospace` without a width gives every glyph the widest measured advance
/// width (one that some glyph of the sheet has); `monospace = px` gives every
/// glyph `px`; width overrides still win over both.
pub proof fn law_monospace_widths(
    img: crate::parsing::SheetImage,
    cols: u32,
    rows: u32,
    monospace: Option<Option<u8>>,
)
    requires
        monospace is Some,
    ensures
        ({
            let grid = grid_of(img.width as int, img.height as int, cols, rows);
            let widths = font_widths(img, grid, monospace, Seq::empty());
            let measured = sheet_widths(img, grid);
            &&& widths.len() == grid.glyph_count
            &&& forall|g: int|
                0 <= g < grid.glyph_count ==> #[trigger] widths[g] == match monospace {
                    Some(Some(px)) => px,
                    _ => max_width(measured),
                }
            &&& monospace == Some(None::<u8>) && grid.glyph_count > 0 ==> (exists|g: int|
                0 <= g < grid.glyph_count && #[trigger] measured[g] == max_width(measured))
            &&& forall|g: int| 0 <= g < grid.glyph_count ==> #[trigger] measured[g] <= max_width(measured)
        }),
{
    let grid = grid_of(img.width as int, img.height as int, cols, rows);
    let measured = sheet_widths(img, grid);
    crate::create::lemma_max_width_is_max(measured);
    assert(apply_overrides(monospace_widths(measured, monospace), Seq::empty(), grid.mode_byte == 1)
        == monospace_widths(measured, monospace));
}

/// Bold and recolor leave the stored advance widths as the plain sheet has
/// them: two packings of one sheet with the same grid, `monospace` and
/// overrides store the same widths whatever their bold strength and recolor
/// maps.
pub proof fn law_style_keeps_widths(
    a: Seq<u8>,
    b: Seq<u8>,
    img: crate::parsing::SheetImage,
    cols: u32,
    rows: u32,
    monospace: Option<Option<u8>>,
    overrides: Seq<(u8, u8)>,
    bold_a: u8,
    recolor_a: Seq<(u8, u8)>,
    bold_b: u8,
    recolor_b: Seq<(u8, u8)>,
)
    requires
        create_error(img, cols, rows, overrides, bold_a, recolor_a) is None,
        created_font(a, img, cols, rows, monospace, overrides, bold_a, recolor_a),
        create_error(img, cols, rows, overrides, bold_b, recolor_b) is None,
        created_font(b, img, cols, rows, monospace, overrides, bold_b, recolor_b),
    ensures
        ({
            let gc = grid_of(img.width as int, img.height as int, cols, rows).glyph_count;
            a.subrange(3, 3 + gc) == b.subrange(3, 3 + gc)
        }),
{
    law_created_font_parses(a, img, cols, rows, monospace, overrides, bold_a, recolor_a);
    law_created_font_parses(b, img, cols, rows, monospace, overrides, bold_b, recolor_b);
}

/// Without a cutoff every byte of a line is drawn.
proof fn lemma_no_cutoff_draws_all(m: GlyphMetrics, line: Seq<u8>, start_x: int, spacing: int, n: int)
    requires
        0 <= n <= line.len(),
    ensures
        drawn_count(m, line, start_x, spacing, None, n) == line.len(),
    decreases line.len() - n,
{
    if n < line.len() {
        lemma_no_cutoff_draws_all(m, line, start_x, spacing, n + 1);
    }
}

/// Text drawn into sprites returns what it returns drawn into tiles (the
/// cursor after the last glyph and the longest line's width) whenever the
/// format does not cut lines off.
pub proof fn law_sprite_result_matches_tiles<T: AgbFont>(
    font: &T,
    text: Seq<u8>,
    pos: (i32, i32),
    format: TextFormat,
    spacing: i8,
    line_spacing: i8,
)
    requires
        !(format.overflow is Cutoff),
    ensures
        sprite_draw_result(font, text, pos, format, spacing, line_spacing) == layout_result(
            font.metrics(),
            visual_lines(
                font.metrics(),
                text,
                overflow_wrap(format.overflow).0,
                overflow_wrap(format.overflow).1,
                spacing as int,
            ),
            format.align,
            spacing as int,
            font_advance(font, line_spacing),
        ),
{
    let m = font.metrics();
    let lines = visual_lines(m, text, overflow_wrap(format.overflow).0, overflow_wrap(format.overflow).1, spacing as int);
    if lines.len() > 0 {
        let last = lines.last();
        let dx = crate::renderer::x_offset_spec(last.1, format.align);
        lemma_no_cutoff_draws_all(m, last.0, pos.0 + dx, spacing as int, 0);
    }
}

/// A width set by the last edit of a code point is the width read back for
/// it.
pub proof fn law_edit_reads_back(bytes: Seq<u8>, mode_byte: u8, sets: Seq<(u8, u8)>, cp: u8, w: u8)
    requires
        mode_byte <= 1,
        bytes.len() >= 3 + glyph_count_of(mode_byte),
        glyph_index_of(cp, mode_byte) is Some,
    ensures
        edited_widths(bytes, mode_byte, sets.push((cp, w)))[3 + glyph_index_of(cp, mode_byte)->0] == w,
{
    lemma_edited_widths_len(bytes, mode_byte, sets);
    assert(sets.push((cp, w)).drop_last() =~= sets);
}

/// Width edits change nothing but the stored widths: the header's mode and
/// cell size and every byte after the widths stay as they were.
pub proof fn law_edit_keeps_the_rest(bytes: Seq<u8>, mode_byte: u8, sets: Seq<(u8, u8)>, j: int)
    requires
        mode_byte <= 1,
        bytes.len() >= 3 + glyph_count_of(mode_byte),
        0 <= j < bytes.len(),
        j < 3 || j >= 3 + glyph_count_of(mode_byte),
    ensures
        edited_widths(bytes, mode_byte, sets)[j] == bytes[j],
    decreases sets.len(),
{
    if sets.len() > 0 {
        law_edit_keeps_the_rest(bytes, mode_byte, sets.drop_last(), j);
        lemma_edited_widths_len(bytes, mode_byte, sets.drop_last());
    }
}

/// The widths block of a font report (`debug_report`), pasted back into a
/// declaration, is read as a `widths` argument that sets every glyph's
/// stored advance width as a width override, in glyph order.
pub proof fn law_printed_widths_paste_back(
    a: ArgsView,
    name: Seq<char>,
    path: Seq<char>,
    bytes: Seq<u8>,
    glyph_count: int,
    base: ArgsView,
)
    requires
        0 <= glyph_count,
        3 + glyph_count <= bytes.len(),
    ensures
        ({
            let text = pasted_block(a, name, path, bytes, glyph_count);
            let ps = entry_pairs(first_code_point(bytes[0]), bytes.subrange(3, 3 + glyph_count));
            &&& lex_from(text, 0) is Ok
            &&& ident_word(text, lex_from(text, 0)->Ok_0, 0) == Some(Word::Widths)
            &&& apply_option(text, lex_from(text, 0)->Ok_0, 1, Word::Widths, base) == Ok::<
                (int, ArgsView),
                crate::arg_tokens::ArgsError,
            >((lex_from(text, 0)->Ok_0.len() as int, ArgsView { widths: base.widths + ps, ..base }))
        }),
{
    lemma_block_pastes(a, name, path, bytes, glyph_count, base);
}

/// Word wrapping needs a wrap width: without one, the lines of a text are
/// those of plain line breaking, step by step and as a whole.
pub proof fn law_word_wrap_needs_a_width(m: GlyphMetrics, t: Seq<u8>, spacing: int)
    ensures
        next_line_spec(m, t, None, true, spacing) == next_line_spec(m, t, None, false, spacing),
        visual_lines(m, t, None, true, spacing) == visual_lines(m, t, None, false, spacing),
    decreases t.len(),
{
    if t.len() > 0 {
        let (e, rest, w) = next_line_spec(m, t, None, false, spacing);
        if 0 < rest <= t.len() {
            law_word_wrap_needs_a_width(m, t.skip(rest), spacing);
        }
    }
}

/// One width entry, its key written as `width_key` writes it (a quoted
/// character or two-digit hex), pasted alone into a `widths` block, is read
/// back as exactly that override, for every code point and width.
pub proof fn law_one_width_key_pastes_back(cp: u8, w: u8, base: ArgsView)
    ensures
        ({
            let text = ascii(
                "  widths = {"@ + seq!['\n', ' ', ' ', ' ', ' '] + entry_chars(cp, w) + seq!['\n'] + "  }"@,
            );
            &&& lex_from(text, 0) is Ok
            &&& ident_word(text, lex_from(text, 0)->Ok_0, 0) == Some(Word::Widths)
            &&& apply_option(text, lex_from(text, 0)->Ok_0, 1, Word::Widths, base) == Ok::<
                (int, ArgsView),
                crate::arg_tokens::ArgsError,
            >((lex_from(text, 0)->Ok_0.len() as int, ArgsView { widths: base.widths.push((cp, w)), ..base }))
        }),
{
    let e = entry_chars(cp, w);
    let widths = seq![w];
    let es = entries_of(cp, widths);
    assert(es =~= seq![e]);
    reveal_strlit(",");
    reveal_strlit(" = ");
    assert(e.len() > 0);
    assert(es.drop_last() =~= Seq::<Seq<char>>::empty());
    let wd = max_len(es);
    assert(max_len(Seq::<Seq<char>>::empty()) == 0);
    assert(wd == e.len());
    let rows = entry_rows(es, wd);
    assert(es.subrange(0, 1) =~= es);
    reveal_strlit("   ");
    reveal_strlit(" ");
    assert(row_pieces(seq![e], wd, 0) =~= Seq::<char>::empty());
    assert(row_pieces(seq![e], wd, 1) =~= seq![' '] + e);
    assert(row_chars(seq![e], wd) =~= seq![' ', ' ', ' ', ' '] + e);
    assert(rows.len() == 1);
    assert(rows[0] == row_chars(es.subrange(0, 1), wd));
    assert(rows =~= seq![seq![' ', ' ', ' ', ' '] + e]);
    assert(rows.drop_last() =~= Seq::<Seq<char>>::empty());
    assert(lines_after(Seq::<Seq<char>>::empty()) =~= Seq::<char>::empty());
    assert(lines_after(rows) == lines_after(rows.drop_last()) + seq!['\n'] + rows.last());
    assert(lines_after(rows) =~= seq!['\n', ' ', ' ', ' ', ' '] + e);
    let text = ascii("  widths = {"@ + seq!['\n', ' ', ' ', ' ', ' '] + e + seq!['\n'] + "  }"@);
    assert("  widths = {"@ + lines_after(rows) + seq!['\n'] + "  }"@ =~= "  widths = {"@ + seq!['\n', ' ', ' ', ' ', ' ']
        + e + seq!['\n'] + "  }"@);
    let all = lemma_full_lex(text, cp, widths, wd);
    let ps = entry_pairs(cp, widths);
    assert(ps =~= seq![(cp, w)]);
    lemma_widths_body_reads(text, all, ps, 0, base);
    assert(ps.skip(0) =~= ps);
    assert(base.widths + ps =~= base.widths.push((cp, w)));
}

proof fn lemma_max_line_width_cons(x: (Seq<u8>, int), v: Seq<(Seq<u8>, int)>)
    ensures
        max_line_width(seq![x] + v) == if x.1 > max_line_width(v) {
            x.1
        } else {
            max_line_width(v)
        },
    decreases v.len(),
{
    let xv = seq![x] + v;
    if v.len() == 0 {
        assert(xv =~= seq![x]);
        assert(xv.drop_last() =~= Seq::<(Seq<u8>, int)>::empty());
        assert(max_line_width(xv.drop_last()) == 0);
        assert(max_line_width(v) == 0);
    } else {
        lemma_max_line_width_cons(x, v.drop_last());
        assert(xv.drop_last() =~= seq![x] + v.drop_last());
        assert(xv.last() == v.last());
        assert(xv.len() > 0);
        assert(max_line_width(xv) == if xv.last().1 > max_line_width(xv.drop_last()) {
            xv.last().1
        } else {
            max_line_width(xv.drop_last())
        });
    }
}

/// Measuring a text line by line gives the widest and the number of the
/// lines that plain line breaking yields.
proof fn lemma_size_lines_visual(m: GlyphMetrics, t: Seq<u8>, wrap_at: Option<u32>, spacing: int)
    ensures
        size_lines(m, t, wrap_at, spacing) == (
            max_line_width(visual_lines(m, t, wrap_at, false, spacing)),
            visual_lines(m, t, wrap_at, false, spacing).len() as int,
        ),
    decreases t.len(),
{
    if t.len() > 0 {
        lemma_next_line_shape(m, t, wrap_at, false, spacing);
        let (e, rest, w) = next_line_spec(m, t, wrap_at, false, spacing);
        lemma_size_lines_visual(m, t.skip(rest), wrap_at, spacing);
        lemma_max_line_width_cons((t.take(e), w), visual_lines(m, t.skip(rest), wrap_at, false, spacing));
    }
}

/// The size of a non-empty text, wrapped or not: it breaks into at least one
/// line; as wide as its widest line and as high as one glyph plus one line
/// advance per further line (none for a single line, whatever the line
/// spacing), the lines being those of plain line breaking at the wrap width.
pub proof fn law_size_is_lines(
    m: GlyphMetrics,
    height: int,
    t: Seq<u8>,
    wrap_at: Option<u32>,
    spacing: int,
    line_spacing: int,
)
    requires
        t.len() > 0,
    ensures
        ({
            let lines = visual_lines(m, t, wrap_at, false, spacing);
            &&& lines.len() >= 1
            &&& size_spec(m, height, t, wrap_at, spacing, line_spacing) == (
                max_line_width(lines),
                height + (lines.len() - 1) * line_advance_of(height, line_spacing),
            )
        }),
{
    lemma_size_lines_visual(m, t, wrap_at, spacing);
    lemma_next_line_shape(m, t, wrap_at, false, spacing);
}

proof fn lemma_prefix_width_positive(m: GlyphMetrics, t: Seq<u8>, spacing: int, k: int)
    requires
        m.width(t[0]) >= 1,
        1 <= k <= t.len(),
    ensures
        m.prefix_width(t, spacing, k) >= 1,
    decreases k,
{
    assert(m.prefix_width(t, spacing, k) == m.prefix_width(t, spacing, k - 1) + m.step(t[k - 1], spacing, k - 1 == 0));
    if k > 1 {
        lemma_prefix_width_positive(m, t, spacing, k - 1);
    } else {
        assert(m.prefix_width(t, spacing, 0) == 0);
    }
}

proof fn lemma_left_layout_from(
    m: GlyphMetrics,
    t: Seq<u8>,
    i: int,
    st: CharLayout,
    x0: int,
    left_margin: int,
    spacing: int,
    adv: int,
)
    requires
        t.len() > 0 ==> m.width(t[0]) >= 1,
        forall|j: int| 0 <= j < t.len() ==> #[trigger] t[j] != NEWLINE,
        0 <= i <= t.len(),
        st.0 == x0 + m.prefix_width(t, spacing, i),
        st.2 == m.prefix_width(t, spacing, i),
    ensures
        char_layout_from(m, t, i, st, None, TextAlign::Left, left_margin, spacing, adv).0 == x0 + m.prefix_width(
            t,
            spacing,
            t.len() as int,
        ),
        char_layout_from(m, t, i, st, None, TextAlign::Left, left_margin, spacing, adv).1 == st.1,
    decreases t.len() - i,
{
    if i < t.len() {
        let c = t[i];
        assert(t[i] != NEWLINE);
        if i > 0 {
            lemma_prefix_width_positive(m, t, spacing, i);
        }
        let (x, y, line_w, longest, ps) = st;
        let longer = if line_w > longest {
            line_w
        } else {
            longest
        };
        let cw = m.width(c);
        let gap = if line_w == 0 {
            0
        } else {
            advance_of(cw, spacing) - cw
        };
        let next = (x + gap + cw, y, line_w + gap + cw, longest, ps.push((c, x + gap, y)));
        assert(m.prefix_width(t, spacing, i + 1) == m.prefix_width(t, spacing, i) + gap + cw);
        lemma_left_layout_from(m, t, i + 1, next, x0, left_margin, spacing, adv);
    }
}

/// A left-aligned text without line feeds, drawn in one go from a fresh
/// line with no wrapping, ends with its cursor on the same row, as far right
/// as the text measures, whenever its first glyph is at least one pixel wide
/// (later glyphs may be zero wide): what a typewriter's cursor shows after
/// `complete` and `draw` of a fresh text.
pub proof fn law_full_draw_ends_at_the_measured_width<T: AgbFont>(
    font: &T,
    t: Seq<u8>,
    pos: (i32, i32),
    spacing: i8,
    line_spacing: i8,
)
    requires
        t.len() > 0 ==> font.metrics().width(t[0]) >= 1,
        forall|j: int| 0 <= j < t.len() ==> #[trigger] t[j] != NEWLINE,
    ensures
        ({
            let res = char_draw_result(
                char_draw_layout(font, t, pos, TextOverflow::Nothing, TextAlign::Left, 0i32, pos.0, spacing, line_spacing),
                pos,
            );
            &&& res.0 == measure_spec(font.metrics(), t, None, spacing as int).0
            &&& res.1 == 0
        }),
{
    let m = font.metrics();
    let st: CharLayout = (pos.0 + x_offset_spec(line_width_from(m, t, 0, None, spacing as int), TextAlign::Left), pos.1 as int, 0, 0, Seq::empty());
    lemma_left_layout_from(m, t, 0, st, pos.0 as int, pos.0 as int, spacing as int, font_advance(font, line_spacing));
    lemma_unwrapped_line(m, t, spacing as int, 0);
}

/// Left-aligned drawing keeps the cursor `left_margin` pixels left of the
/// line's used width.
proof fn lemma_left_layout_margin(
    m: GlyphMetrics,
    t: Seq<u8>,
    i: int,
    st: CharLayout,
    wrap: Option<u16>,
    left_margin: int,
    spacing: int,
    adv: int,
)
    requires
        st.0 - st.2 == left_margin,
    ensures
        ({
            let r = char_layout_from(m, t, i, st, wrap, TextAlign::Left, left_margin, spacing, adv);
            r.0 - r.2 == left_margin
        }),
    decreases t.len() - i,
{
    if 0 <= i < t.len() {
        let (x, y, line_w, longest, ps) = st;
        let longer = if line_w > longest {
            line_w
        } else {
            longest
        };
        let c = t[i];
        let next = if c == NEWLINE {
            (left_margin + x_offset_spec(line_width_from(m, t, i + 1, wrap, spacing), TextAlign::Left), y + adv, 0, longer, ps)
        } else {
            let cw = m.width(c);
            let gap = if line_w == 0 {
                0
            } else {
                advance_of(cw, spacing) - cw
            };
            let wrapped = wrap matches Some(wa) && line_w + gap + cw > wa;
            let (x0, y0, lw0, lg0, g0) = if wrapped {
                (left_margin + x_offset_spec(line_width_from(m, t, i, wrap, spacing), TextAlign::Left), y + adv, 0, longer, 0)
            } else {
                (x, y, line_w, longest, gap)
            };
            (x0 + g0 + cw, y0, lw0 + g0 + cw, lg0, ps.push((c, x0 + g0, y0)))
        };
        lemma_left_layout_margin(m, t, i + 1, next, wrap, left_margin, spacing, adv);
    }
}

/// Left-aligned layout from a state depends on the state's longest line
/// and placements only by carrying them: the cursor and used width come out
/// the same and the new placements follow the old ones.
proof fn lemma_left_layout_carry(
    m: GlyphMetrics,
    t: Seq<u8>,
    i: int,
    st: CharLayout,
    wrap: Option<u16>,
    left_margin: int,
    spacing: int,
    adv: int,
)
    ensures
        ({
            let r = char_layout_from(m, t, i, st, wrap, TextAlign::Left, left_margin, spacing, adv);
            let e = char_layout_from(m, t, i, (st.0, st.1, st.2, 0, Seq::empty()), wrap, TextAlign::Left, left_margin, spacing, adv);
            &&& r.0 == e.0 && r.1 == e.1 && r.2 == e.2
            &&& r.4 == st.4 + e.4
        }),
    decreases t.len() - i,
{
    if 0 <= i < t.len() {
        let c = t[i];
        let (x, y, line_w, longest, ps) = st;
        if c == NEWLINE {
            let x2 = left_margin + x_offset_spec(line_width_from(m, t, i + 1, wrap, spacing), TextAlign::Left);
            let n1 = (x2, y + adv, 0, if line_w > longest { line_w } else { longest }, ps);
            let n2 = (x2, y + adv, 0, if line_w > 0 { line_w } else { 0 }, Seq::<(u8, int, int)>::empty());
            lemma_left_layout_carry(m, t, i + 1, n1, wrap, left_margin, spacing, adv);
            lemma_left_layout_carry(m, t, i + 1, n2, wrap, left_margin, spacing, adv);
            assert(ps + Seq::<(u8, int, int)>::empty() =~= ps);
        } else {
            let cw = m.width(c);
            let gap = if line_w == 0 {
                0
            } else {
                advance_of(cw, spacing) - cw
            };
            let wrapped = wrap matches Some(wa) && line_w + gap + cw > wa;
            let x2 = left_margin + x_offset_spec(line_width_from(m, t, i, wrap, spacing), TextAlign::Left);
            let (x0, y0, lw0, g0) = if wrapped {
                (x2, y + adv, 0, 0)
            } else {
                (x, y, line_w, gap)
            };
            let p = (c, x0 + g0, y0);
            let lg1 = if wrapped { if line_w > longest { line_w } else { longest } } else { longest };
            let lg2 = if wrapped { if line_w > 0 { line_w } else { 0 } } else { 0 };
            let n1 = (x0 + g0 + cw, y0, lw0 + g0 + cw, lg1, ps.push(p));
            let n2 = (x0 + g0 + cw, y0, lw0 + g0 + cw, lg2, seq![p]);
            lemma_left_layout_carry(m, t, i + 1, n1, wrap, left_margin, spacing, adv);
            lemma_left_layout_carry(m, t, i + 1, n2, wrap, left_margin, spacing, adv);
            assert(Seq::<(u8, int, int)>::empty().push(p) =~= seq![p]);
            let e1 = char_layout_from(m, t, i + 1, (n1.0, n1.1, n1.2, 0, Seq::empty()), wrap, TextAlign::Left, left_margin, spacing, adv);
            assert(ps.push(p) + e1.4 =~= ps + (seq![p] + e1.4));
        }
    }
}

/// Layout of `t1 + t2` from byte `i` of `t1` is the layout of `t2` from
/// where the layout of `t1` ends.
proof fn lemma_layout_concat(
    m: GlyphMetrics,
    t1: Seq<u8>,
    t2: Seq<u8>,
    i: int,
    st: CharLayout,
    wrap: Option<u16>,
    left_margin: int,
    spacing: int,
    adv: int,
)
    requires
        0 <= i <= t1.len(),
    ensures
        char_layout_from(m, t1 + t2, i, st, wrap, TextAlign::Left, left_margin, spacing, adv) == char_layout_from(
            m,
            t2,
            0,
            char_layout_from(m, t1, i, st, wrap, TextAlign::Left, left_margin, spacing, adv),
            wrap,
            TextAlign::Left,
            left_margin,
            spacing,
            adv,
        ),
    decreases t1.len() + t2.len() - i,
{
    let t = t1 + t2;
    if i < t1.len() {
        let c = t[i];
        assert(c == t1[i]);
        let (x, y, line_w, longest, ps) = st;
        let longer = if line_w > longest { line_w } else { longest };
        let next = if c == NEWLINE {
            (left_margin + 0, y + adv, 0, longer, ps)
        } else {
            let cw = m.width(c);
            let gap = if line_w == 0 { 0 } else { advance_of(cw, spacing) - cw };
            let wrapped = wrap matches Some(wa) && line_w + gap + cw > wa;
            let (x0, y0, lw0, lg0, g0) = if wrapped {
                (left_margin + 0, y + adv, 0, longer, 0)
            } else {
                (x, y, line_w, longest, gap)
            };
            (x0 + g0 + cw, y0, lw0 + g0 + cw, lg0, ps.push((c, x0 + g0, y0)))
        };
        assert(char_layout_from(m, t, i, st, wrap, TextAlign::Left, left_margin, spacing, adv) == char_layout_from(
            m, t, i + 1, next, wrap, TextAlign::Left, left_margin, spacing, adv));
        assert(char_layout_from(m, t1, i, st, wrap, TextAlign::Left, left_margin, spacing, adv) == char_layout_from(
            m, t1, i + 1, next, wrap, TextAlign::Left, left_margin, spacing, adv));
        lemma_layout_concat(m, t1, t2, i + 1, next, wrap, left_margin, spacing, adv);
    } else {
        lemma_layout_shift(m, t1, t2, i, st, wrap, left_margin, spacing, adv);
    }
}

proof fn lemma_layout_shift(
    m: GlyphMetrics,
    t1: Seq<u8>,
    t2: Seq<u8>,
    i: int,
    st: CharLayout,
    wrap: Option<u16>,
    left_margin: int,
    spacing: int,
    adv: int,
)
    requires
        t1.len() <= i,
    ensures
        char_layout_from(m, t1 + t2, i, st, wrap, TextAlign::Left, left_margin, spacing, adv) == char_layout_from(
            m,
            t2,
            i - t1.len(),
            st,
            wrap,
            TextAlign::Left,
            left_margin,
            spacing,
            adv,
        ),
    decreases t1.len() + t2.len() - i,
{
    let t = t1 + t2;
    let j = i - t1.len();
    if i < t.len() {
        let c = t[i];
        assert(c == t2[j]);
        let (x, y, line_w, longest, ps) = st;
        let longer = if line_w > longest { line_w } else { longest };
        let next = if c == NEWLINE {
            (left_margin + 0, y + adv, 0, longer, ps)
        } else {
            let cw = m.width(c);
            let gap = if line_w == 0 { 0 } else { advance_of(cw, spacing) - cw };
            let wrapped = wrap matches Some(wa) && line_w + gap + cw > wa;
            let (x0, y0, lw0, lg0, g0) = if wrapped {
                (left_margin + 0, y + adv, 0, longer, 0)
            } else {
                (x, y, line_w, longest, gap)
            };
            (x0 + g0 + cw, y0, lw0 + g0 + cw, lg0, ps.push((c, x0 + g0, y0)))
        };
        assert(char_layout_from(m, t, i, st, wrap, TextAlign::Left, left_margin, spacing, adv) == char_layout_from(
            m, t, i + 1, next, wrap, TextAlign::Left, left_margin, spacing, adv));
        assert(char_layout_from(m, t2, j, st, wrap, TextAlign::Left, left_margin, spacing, adv) == char_layout_from(
            m, t2, j + 1, next, wrap, TextAlign::Left, left_margin, spacing, adv));
        lemma_layout_shift(m, t1, t2, i + 1, next, wrap, left_margin, spacing, adv);
    }
}

/// Glyphs placed after others cover them where they have ink.
proof fn lemma_overlay_concat<T: AgbFont>(
    font: &T,
    p1: Seq<(u8, int, int)>,
    p2: Seq<(u8, int, int)>,
    cutoff: Option<int>,
    x: int,
    y: int,
)
    ensures
        overlay_px(font, p1 + p2, cutoff, x, y) == if overlay_px(font, p2, cutoff, x, y) != 0 {
            overlay_px(font, p2, cutoff, x, y)
        } else {
            overlay_px(font, p1, cutoff, x, y)
        },
    decreases p2.len(),
{
    if p2.len() == 0 {
        assert(p1 + p2 =~= p1);
    } else {
        lemma_overlay_concat(font, p1, p2.drop_last(), cutoff, x, y);
        assert((p1 + p2).drop_last() =~= p1 + p2.drop_last());
        assert((p1 + p2).last() == p2.last());
    }
}

/// Drawing a left-aligned text in two chunks, the second from where the
/// first left the cursor and with the line width it used, returns the same
/// cursor as drawing it at once, leaves the same pixels and tracks tiles at
/// the same positions (both add exactly the untracked tiles that glyphs ink,
/// never a blank one): what the
/// typewriters rely on when they draw what each frame reveals. `pos` stands
/// `initial_line_w` pixels right of the left margin, as it does for a
/// typewriter's cursor.
pub proof fn law_chunked_drawing<T: AgbFont>(
    font: &T,
    t1: Seq<u8>,
    t2: Seq<u8>,
    pos: (i32, i32),
    overflow: TextOverflow,
    initial_line_w: i32,
    left_margin: i32,
    spacing: i8,
    line_spacing: i8,
    before: Seq<crate::tiles::TileRows>,
    mid: Seq<crate::tiles::TileRows>,
    after: Seq<crate::tiles::TileRows>,
    once: Seq<crate::tiles::TileRows>,
)
    requires
        pos.0 == left_margin + initial_line_w,
        ({
            let r1 = char_draw_result(
                char_draw_layout(font, t1, pos, overflow, TextAlign::Left, initial_line_w, left_margin, spacing, line_spacing),
                pos,
            );
            &&& i32::MIN <= pos.0 + r1.0 <= i32::MAX
            &&& i32::MIN <= pos.1 + r1.1 <= i32::MAX
            &&& i32::MIN <= initial_line_w + r1.0 <= i32::MAX
        }),
        forall|x: int, y: int|
            #[trigger] screen_px(mid, x, y) == char_drawn_px(
                font,
                before,
                char_draw_layout(font, t1, pos, overflow, TextAlign::Left, initial_line_w, left_margin, spacing, line_spacing).4,
                overflow_cutoff(overflow, left_margin),
                pos,
                (0i32, 0i32),
                x,
                y,
            ),
        forall|tx: int, ty: int|
            #[trigger] tracks(mid, tx, ty) <==> tracks(before, tx, ty) || glyphs_ink_tile(
                font,
                char_draw_layout(font, t1, pos, overflow, TextAlign::Left, initial_line_w, left_margin, spacing, line_spacing).4,
                overflow_cutoff(overflow, left_margin),
                tx,
                ty,
            ),
        ({
            let r1 = char_draw_result(
                char_draw_layout(font, t1, pos, overflow, TextAlign::Left, initial_line_w, left_margin, spacing, line_spacing),
                pos,
            );
            let pos2 = ((pos.0 + r1.0) as i32, (pos.1 + r1.1) as i32);
            let second = char_draw_layout(font, t2, pos2, overflow, TextAlign::Left, (initial_line_w + r1.0) as i32, left_margin, spacing, line_spacing);
            forall|tx: int, ty: int|
                #[trigger] tracks(after, tx, ty) <==> tracks(mid, tx, ty) || glyphs_ink_tile(
                    font,
                    second.4,
                    overflow_cutoff(overflow, left_margin),
                    tx,
                    ty,
                )
        }),
        forall|tx: int, ty: int|
            #[trigger] tracks(once, tx, ty) <==> tracks(before, tx, ty) || glyphs_ink_tile(
                font,
                char_draw_layout(font, t1 + t2, pos, overflow, TextAlign::Left, initial_line_w, left_margin, spacing, line_spacing).4,
                overflow_cutoff(overflow, left_margin),
                tx,
                ty,
            ),
    ensures
        ({
            let all = char_draw_layout(font, t1 + t2, pos, overflow, TextAlign::Left, initial_line_w, left_margin, spacing, line_spacing);
            let r1 = char_draw_result(
                char_draw_layout(font, t1, pos, overflow, TextAlign::Left, initial_line_w, left_margin, spacing, line_spacing),
                pos,
            );
            let pos2 = ((pos.0 + r1.0) as i32, (pos.1 + r1.1) as i32);
            let second = char_draw_layout(font, t2, pos2, overflow, TextAlign::Left, (initial_line_w + r1.0) as i32, left_margin, spacing, line_spacing);
            let r2 = char_draw_result(second, pos2);
            &&& char_draw_result(all, pos).0 == r1.0 + r2.0
            &&& char_draw_result(all, pos).1 == r1.1 + r2.1
            &&& forall|x: int, y: int|
                #[trigger] char_drawn_px(font, mid, second.4, overflow_cutoff(overflow, left_margin), pos2, (0i32, 0i32), x, y)
                    == char_drawn_px(font, before, all.4, overflow_cutoff(overflow, left_margin), pos, (0i32, 0i32), x, y)
            &&& forall|tx: int, ty: int| #[trigger] tracks(after, tx, ty) <==> tracks(once, tx, ty)
        }),
{
    let m = font.metrics();
    let wrap = overflow_wrap_px(overflow);
    let adv = font_advance(font, line_spacing);
    let lm = left_margin as int;
    let st0: CharLayout = (pos.0 + x_offset_spec(line_width_from(m, t1 + t2, 0, wrap, spacing as int), TextAlign::Left), pos.1 as int, initial_line_w as int, 0, Seq::empty());
    let st1: CharLayout = (pos.0 + x_offset_spec(line_width_from(m, t1, 0, wrap, spacing as int), TextAlign::Left), pos.1 as int, initial_line_w as int, 0, Seq::empty());
    assert(st0 == st1);
    let b1 = char_layout_from(m, t1, 0, st1, wrap, TextAlign::Left, lm, spacing as int, adv);
    lemma_layout_concat(m, t1, t2, 0, st1, wrap, lm, spacing as int, adv);
    lemma_left_layout_margin(m, t1, 0, st1, wrap, lm, spacing as int, adv);
    let r1 = char_draw_result(b1, pos);
    let pos2 = ((pos.0 + r1.0) as i32, (pos.1 + r1.1) as i32);
    assert(pos2.0 == b1.0 && pos2.1 == b1.1);
    assert((initial_line_w + r1.0) as i32 == b1.2);
    let st2: CharLayout = (pos2.0 + x_offset_spec(line_width_from(m, t2, 0, wrap, spacing as int), TextAlign::Left), pos2.1 as int, b1.2, 0, Seq::empty());
    assert(st2 == (b1.0, b1.1, b1.2, 0int, Seq::<(u8, int, int)>::empty()));
    lemma_left_layout_carry(m, t2, 0, b1, wrap, lm, spacing as int, adv);
    let all = char_layout_from(m, t1 + t2, 0, st0, wrap, TextAlign::Left, lm, spacing as int, adv);
    let second = char_layout_from(m, t2, 0, st2, wrap, TextAlign::Left, lm, spacing as int, adv);
    assert(all.4 == b1.4 + second.4);
    let cut = overflow_cutoff(overflow, left_margin);
    assert forall|x: int, y: int|
        #[trigger] char_drawn_px(font, mid, second.4, cut, pos2, (0i32, 0i32), x, y) == char_drawn_px(
            font,
            before,
            all.4,
            cut,
            pos,
            (0i32, 0i32),
            x,
            y,
        ) by {
        lemma_overlay_concat(font, b1.4, second.4, cut, x, y);
        assert(screen_px(mid, x, y) == char_drawn_px(font, before, b1.4, cut, pos, (0i32, 0i32), x, y));
    }
    assert forall|tx: int, ty: int| #[trigger] tracks(after, tx, ty) <==> tracks(once, tx, ty) by {
        if glyphs_ink_tile(font, all.4, cut, tx, ty) {
            let (x, y) = choose|x: int, y: int| x / 8 == tx && y / 8 == ty && #[trigger] overlay_px(font, all.4, cut, x, y) != 0;
            lemma_overlay_concat(font, b1.4, second.4, cut, x, y);
            if overlay_px(font, second.4, cut, x, y) != 0 {
                assert(glyphs_ink_tile(font, second.4, cut, tx, ty));
            } else {
                assert(glyphs_ink_tile(font, b1.4, cut, tx, ty));
            }
        }
        if glyphs_ink_tile(font, b1.4, cut, tx, ty) {
            let (x, y) = choose|x: int, y: int| x / 8 == tx && y / 8 == ty && #[trigger] overlay_px(font, b1.4, cut, x, y) != 0;
            lemma_overlay_concat(font, b1.4, second.4, cut, x, y);
            assert(overlay_px(font, all.4, cut, x, y) != 0);
        }
        if glyphs_ink_tile(font, second.4, cut, tx, ty) {
            let (x, y) = choose|x: int, y: int| x / 8 == tx && y / 8 == ty && #[trigger] overlay_px(font, second.4, cut, x, y) != 0;
            lemma_overlay_concat(font, b1.4, second.4, cut, x, y);
            assert(overlay_px(font, all.4, cut, x, y) != 0);
        }
    }
}

/// A whole font declaration `F, "f",` with one width entry pasted in,
/// its key written as `width_key` writes it, parses as the name `F`, the path
/// `f` and exactly that width override, for every code point and width.
pub proof fn law_width_key_declaration_parses(cp: u8, w: u8)
    ensures
        parse_args_spec(
            ascii(
                declaration_head() + "  widths = {"@ + seq!['\n', ' ', ' ', ' ', ' '] + entry_chars(cp, w) + seq!['\n']
                    + "  }"@,
            ),
        ) == Ok::<ArgsView, crate::arg_tokens::ArgsError>(
            ArgsView { widths: seq![(cp, w)], ..initial_args(Visibility::Inherited, (0usize, 1usize), seq![102u8]) },
        ),
{
    let e = entry_chars(cp, w);
    let widths = seq![w];
    let es = entries_of(cp, widths);
    assert(es =~= seq![e]);
    reveal_strlit(",");
    reveal_strlit(" = ");
    assert(e.len() > 0);
    assert(es.drop_last() =~= Seq::<Seq<char>>::empty());
    let wd = max_len(es);
    assert(max_len(Seq::<Seq<char>>::empty()) == 0);
    assert(wd == e.len());
    let rows = entry_rows(es, wd);
    assert(es.subrange(0, 1) =~= es);
    reveal_strlit("   ");
    reveal_strlit(" ");
    assert(row_pieces(seq![e], wd, 0) =~= Seq::<char>::empty());
    assert(row_pieces(seq![e], wd, 1) =~= seq![' '] + e);
    assert(row_chars(seq![e], wd) =~= seq![' ', ' ', ' ', ' '] + e);
    assert(rows.len() == 1);
    assert(rows[0] == row_chars(es.subrange(0, 1), wd));
    assert(rows =~= seq![seq![' ', ' ', ' ', ' '] + e]);
    assert(rows.drop_last() =~= Seq::<Seq<char>>::empty());
    assert(lines_after(Seq::<Seq<char>>::empty()) =~= Seq::<char>::empty());
    assert(lines_after(rows) == lines_after(rows.drop_last()) + seq!['\n'] + rows.last());
    assert(lines_after(rows) =~= seq!['\n', ' ', ' ', ' ', ' '] + e);
    let text = ascii(declaration_head() + "  widths = {"@ + seq!['\n', ' ', ' ', ' ', ' '] + e + seq!['\n'] + "  }"@);
    assert(declaration_head() + "  widths = {"@ + lines_after(rows) + seq!['\n'] + "  }"@ =~= declaration_head()
        + "  widths = {"@ + seq!['\n', ' ', ' ', ' ', ' '] + e + seq!['\n'] + "  }"@);
    let t = lemma_declaration_lex(text, cp, w, wd);
    assert(parse_vis(text, t) == Ok::<(Visibility, int), crate::arg_tokens::ArgsError>((Visibility::Inherited, 0int)));
    let a0 = initial_args(Visibility::Inherited, (0usize, 1usize), seq![102u8]);
    let a1 = ArgsView { widths: a0.widths.push((cp, w)), ..a0 };
    assert(a1.widths =~= seq![(cp, w)]);
    let et = t.subrange(7, 11);
    assert(et[0] == t[7] && et[1] == t[8] && et[2] == t[9] && et[3] == t[10]);
    assert(widths_body(text, t, 11, a1) == Ok::<(int, ArgsView), crate::arg_tokens::ArgsError>((12int, a1)));
    assert(skip_comma(t, 10) == 11);
    assert(widths_body(text, t, 7, a0) == Ok::<(int, ArgsView), crate::arg_tokens::ArgsError>((12int, a1)));
    assert(ident_word(text, t, 4) == Some(Word::Widths));
    assert(apply_option(text, t, 5, Word::Widths, a0) == Ok::<(int, ArgsView), crate::arg_tokens::ArgsError>((12int, a1)));
    assert(options_from(text, t, 12, a1) == Ok::<ArgsView, crate::arg_tokens::ArgsError>(a1));
    assert(options_from(text, t, 3, a0) == Ok::<ArgsView, crate::arg_tokens::ArgsError>(a1));
}

/// Alignment places a line inside its column: a centred line leaves margins
/// on its two sides that differ by at most one pixel, a right-aligned line
/// ends at the column's right edge, a left-aligned one starts at its left
/// edge; a line wider than its column starts at the left edge.
pub proof fn law_alignment_offsets(line_w: int, column_w: u16)
    requires
        0 <= line_w,
    ensures
        line_w <= column_w ==> {
            let o = x_offset_spec(line_w, TextAlign::Center(column_w));
            o + line_w + o == column_w || o + line_w + o + 1 == column_w
        },
        line_w <= column_w ==> x_offset_spec(line_w, TextAlign::Right(column_w)) + line_w == column_w,
        line_w > column_w ==> x_offset_spec(line_w, TextAlign::Center(column_w)) == 0,
        line_w > column_w ==> x_offset_spec(line_w, TextAlign::Right(column_w)) == 0,
        x_offset_spec(line_w, TextAlign::Left) == 0,
{
}

/// A width override `(cp, w)` given last sets the width stored for code
/// point `cp` to `w`: at byte `3 + cp` of a full font (every code point has
/// its glyph), at byte `3 + cp - 32` of a small one (printable ASCII only).
pub proof fn law_override_sets_its_code_point(
    bytes: Seq<u8>,
    img: crate::parsing::SheetImage,
    cols: u32,
    rows: u32,
    monospace: Option<Option<u8>>,
    overrides: Seq<(u8, u8)>,
    bold: u8,
    recolor: Seq<(u8, u8)>,
    cp: u8,
    w: u8,
)
    requires
        create_error(img, cols, rows, overrides.push((cp, w)), bold, recolor) is None,
        created_font(bytes, img, cols, rows, monospace, overrides.push((cp, w)), bold, recolor),
    ensures
        grid_of(img.width as int, img.height as int, cols, rows).mode_byte == 1 ==> bytes[3 + cp] == w,
        grid_of(img.width as int, img.height as int, cols, rows).mode_byte == 0 ==> 32 <= cp <= 126 && bytes[3 + cp
            - 32] == w,
{
    let ovs = overrides.push((cp, w));
    law_created_font_parses(bytes, img, cols, rows, monospace, ovs, bold, recolor);
    let grid = grid_of(img.width as int, img.height as int, cols, rows);
    let full = grid.mode_byte == 1;
    let base = monospace_widths(sheet_widths(img, grid), monospace);
    lemma_font_widths_len(img, grid, monospace, ovs);
    lemma_apply_overrides_len(base, overrides, full);
    lemma_apply_overrides_len(base, ovs, full);
    assert(ovs.drop_last() =~= overrides);
    assert(ovs.last() == (cp, w));
    let widths = font_widths(img, grid, monospace, ovs);
    if !full {
        if !(32 <= cp <= 126) {
            assert(override_slot(ovs[ovs.len() - 1].0, full) is None);
            assert(override_out_of_range(ovs, full));
        }
        assert(widths[cp - 32] == w);
        assert(bytes.subrange(3, 3 + grid.glyph_count)[cp - 32] == bytes[3 + cp - 32]);
    } else {
        assert(widths[cp as int] == w);
        assert(bytes.subrange(3, 3 + grid.glyph_count)[cp as int] == bytes[3 + cp]);
    }
}

proof fn lemma_prefix_width_mono(m: GlyphMetrics, t: Seq<u8>, spacing: int, k: int, j: int)
    requires
        0 <= k <= j,
    ensures
        m.prefix_width(t, spacing, k) <= m.prefix_width(t, spacing, j),
    decreases j - k,
{
    if k < j {
        lemma_prefix_width_mono(m, t, spacing, k, j - 1);
        assert(m.prefix_width(t, spacing, j) == m.prefix_width(t, spacing, j - 1) + m.step(t[j - 1], spacing, j - 1 == 0));
    }
}

proof fn lemma_word_wrap_end_after(m: GlyphMetrics, t: Seq<u8>, wrap_px: int, spacing: int, i: int, line_w: int)
    requires
        0 <= i <= t.len(),
    ensures
        word_wrap_from(m, t, wrap_px, spacing, i, line_w).0 >= i,
    decreases t.len() - i,
{
    if i < t.len() {
        let c = t[i];
        if c == SPACE {
            lemma_word_wrap_end_after(m, t, wrap_px, spacing, i + 1, line_w + m.step(c, spacing, i == 0));
        } else if c == HYPHEN {
            lemma_word_wrap_end_after(m, t, wrap_px, spacing, i + 1, line_w + m.step(c, spacing, i == 0));
        } else if c != NEWLINE {
            lemma_word_wrap_end_after(m, t, wrap_px, spacing, i + 1, line_w + m.step(c, spacing, i == 0));
        }
    }
}

/// A word that fits with the glyphs of `a` leaves the line at the first byte
/// `k` of `a`'s run untouched, with the line width its glyphs sum to.
proof fn lemma_wrap_through_word(m: GlyphMetrics, t: Seq<u8>, wrap_px: int, spacing: int, k: int, n: int)
    requires
        0 <= k <= n < t.len(),
        forall|j: int| 0 <= j < n ==> #[trigger] t[j] != SPACE && t[j] != NEWLINE && t[j] != HYPHEN,
        m.prefix_width(t, spacing, n) <= wrap_px,
    ensures
        word_wrap_from(m, t, wrap_px, spacing, k, m.prefix_width(t, spacing, k)) == word_wrap_from(
            m,
            t,
            wrap_px,
            spacing,
            n,
            m.prefix_width(t, spacing, n),
        ),
    decreases n - k,
{
    if k < n {
        assert(t[k] != SPACE && t[k] != NEWLINE && t[k] != HYPHEN);
        lemma_prefix_width_mono(m, t, spacing, k + 1, n);
        assert(m.prefix_width(t, spacing, k + 1) == m.prefix_width(t, spacing, k) + m.step(t[k], spacing, k == 0));
        lemma_wrap_through_word(m, t, wrap_px, spacing, k + 1, n);
    }
}

/// Word wrapping breaks at a space exactly when the next word does not fit
/// after it: for a line `a` that fits, followed by a space and a word `b`
/// (then the end of the text, a space or a line feed), the line ends at the
/// space, which is consumed, if and only if the width of `a`, plus the
/// space's advance, plus the advances of `b`'s glyphs pass the wrap width.
pub proof fn law_word_wrap_breaks_before_a_word_that_does_not_fit(
    m: GlyphMetrics,
    a: Seq<u8>,
    b: Seq<u8>,
    rest: Seq<u8>,
    wrap_px: u32,
    spacing: int,
)
    requires
        a.len() > 0,
        b.len() > 0,
        forall|j: int| 0 <= j < a.len() ==> #[trigger] a[j] != SPACE && a[j] != NEWLINE && a[j] != HYPHEN,
        forall|j: int| 0 <= j < b.len() ==> #[trigger] b[j] != SPACE && b[j] != NEWLINE && b[j] != HYPHEN,
        rest.len() == 0 || rest[0] == SPACE || rest[0] == NEWLINE,
        0 < m.prefix_width(a + seq![SPACE] + b + rest, spacing, a.len() as int) <= wrap_px,
    ensures
        ({
            let t = a + seq![SPACE] + b + rest;
            let n = a.len() as int;
            let r = next_line_spec(m, t, Some(wrap_px), true, spacing);
            (r.0 == n && r.1 == n + 1) <==> m.prefix_width(t, spacing, n) + advance_of(m.width(SPACE), spacing)
                + m.advance_sum(t, spacing, n + 1, n + 1 + b.len()) > wrap_px
        }),
{
    let t = a + seq![SPACE] + b + rest;
    let n = a.len() as int;
    let e = n + 1 + b.len();
    assert forall|j: int| 0 <= j < n implies #[trigger] t[j] != SPACE && t[j] != NEWLINE && t[j] != HYPHEN by {
        assert(t[j] == a[j]);
    }
    assert(t[n] == SPACE);
    lemma_wrap_through_word(m, t, wrap_px as int, spacing, 0, n);
    assert(m.prefix_width(t, spacing, 0) == 0);
    let lw = m.prefix_width(t, spacing, n);
    let space_w = m.step(SPACE, spacing, n == 0);
    assert(space_w == advance_of(m.width(SPACE), spacing));
    assert forall|j: int| n + 1 <= j < e implies !is_break_byte(#[trigger] t[j]) && t[j] != HYPHEN by {
        assert(t[j] == b[j - n - 1]);
    }
    assert(e == t.len() || is_break_byte(t[e])) by {
        if e < t.len() {
            assert(t[e] == rest[0]);
        }
    }
    lemma_word_end_run(t, n + 1, e);
    lemma_hyphen_end_none(t, n + 1, e);
    let (next_w, next_end) = fragment_spec(m, t, spacing, n + 1);
    assert(next_end == e && next_w == m.advance_sum(t, spacing, n + 1, e));
    if !(lw + space_w + next_w > wrap_px) {
        lemma_word_wrap_end_after(m, t, wrap_px as int, spacing, n + 1, lw + space_w);
    }
}

proof fn lemma_word_end_run(t: Seq<u8>, i: int, e: int)
    requires
        0 <= i <= e <= t.len(),
        forall|j: int| i <= j < e ==> !is_break_byte(#[trigger] t[j]),
        e == t.len() || is_break_byte(t[e]),
    ensures
        word_end(t, i) == e,
    decreases e - i,
{
    if i < e {
        lemma_word_end_run(t, i + 1, e);
    }
}

proof fn lemma_hyphen_end_none(t: Seq<u8>, i: int, e: int)
    requires
        0 <= i <= e,
        forall|j: int| i <= j < e ==> #[trigger] t[j] != HYPHEN,
    ensures
        hyphen_end(t, i, e) == e,
    decreases e - i,
{
    if i < e {
        lemma_hyphen_end_none(t, i + 1, e);
    }
}

} // verus!

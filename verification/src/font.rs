use vstd::prelude::*;
use crate::lines::Lines;
use crate::metrics::{
    advance_of, clamped_advance, lemma_prefix_width_bounds, GlyphMetrics, MAX_TEXT_LEN, NEWLINE, SPACE,
};

verus! {

/// Greedy measurement of one line of `t`, scanning from byte `i` with `width`
/// pixels already used: `(line width, bytes consumed)`.
pub open spec fn measure_from(
    m: GlyphMetrics,
    t: Seq<u8>,
    wrap_at: Option<u32>,
    spacing: int,
    i: int,
    width: int,
) -> (int, int)
    decreases t.len() - i,
{
    if i >= t.len() {
        (width, t.len() as int)
    } else if t[i] == NEWLINE {
        (width, i + 1)
    } else {
        let w = m.step(t[i], spacing, i == 0);
        match wrap_at {
            Some(max) => if i > 0 && width + w > max {
                (width, i)
            } else {
                measure_from(m, t, wrap_at, spacing, i + 1, width + w)
            },
            None => measure_from(m, t, wrap_at, spacing, i + 1, width + w),
        }
    }
}

/// `(line width, bytes consumed)` of the first line of `t`.
pub open spec fn measure_spec(m: GlyphMetrics, t: Seq<u8>, wrap_at: Option<u32>, spacing: int) -> (
    int,
    int,
) {
    measure_from(m, t, wrap_at, spacing, 0, 0)
}

/// The number of glyphs on a measured line: the consumed bytes without a
/// terminating line feed.
pub open spec fn line_glyphs(t: Seq<u8>, consumed: int) -> int {
    if consumed > 0 && t[consumed - 1] == NEWLINE {
        consumed - 1
    } else {
        consumed
    }
}

/// What a line break of `t` after `consumed` bytes with width `w` satisfies:
/// the line holds no line feed, its width is the sum of its glyphs' steps
/// (no trailing gap), every glyph after the first fits the wrap width, and the
/// line ends at the end of the text, at a line feed (consumed with it), or just
/// before the first glyph that would overflow. A non-empty text always
/// consumes at least one byte.
pub open spec fn is_line_break(
    m: GlyphMetrics,
    t: Seq<u8>,
    wrap_at: Option<u32>,
    spacing: int,
    w: int,
    consumed: int,
) -> bool {
    let k = line_glyphs(t, consumed);
    &&& 0 <= consumed <= t.len()
    &&& (t.len() > 0 ==> consumed > 0)
    &&& forall|j: int| 0 <= j < k ==> #[trigger] t[j] != NEWLINE
    &&& w == m.prefix_width(t, spacing, k)
    &&& (wrap_at matches Some(max) ==> (k >= 2 ==> m.prefix_width(t, spacing, k) <= max))
    &&& {
        ||| (consumed == t.len() && k == consumed)
        ||| (k < t.len() && t[k] == NEWLINE && consumed == k + 1)
        ||| (wrap_at matches Some(max) && 0 < k && k == consumed && consumed < t.len() && t[k]
            != NEWLINE && m.prefix_width(t, spacing, k + 1) > max)
    }
}

/// Maximum line width and number of lines of `t` laid out line by line.
pub open spec fn size_lines(m: GlyphMetrics, t: Seq<u8>, wrap_at: Option<u32>, spacing: int) -> (
    int,
    int,
)
    decreases t.len(),
{
    if t.len() == 0 {
        (0, 0)
    } else {
        let (w, n) = measure_spec(m, t, wrap_at, spacing);
        if n <= 0 || n > t.len() {
            (w, 1)
        } else {
            let (rest_w, rest_lines) = size_lines(m, t.skip(n), wrap_at, spacing);
            (if w > rest_w {
                w
            } else {
                rest_w
            }, rest_lines + 1)
        }
    }
}

/// Vertical advance from one line to the next.
pub open spec fn line_advance_of(height: int, line_spacing: int) -> int {
    if height + line_spacing >= 1 {
        height + line_spacing
    } else {
        1
    }
}

/// `(width, height)` of `t` rendered with the given wrapping and spacing.
pub open spec fn size_spec(
    m: GlyphMetrics,
    height: int,
    t: Seq<u8>,
    wrap_at: Option<u32>,
    spacing: int,
    line_spacing: int,
) -> (int, int) {
    if t.len() == 0 {
        (0, 0)
    } else {
        let (w, lines) = size_lines(m, t, wrap_at, spacing);
        (w, height + (lines - 1) * line_advance_of(height, line_spacing))
    }
}


/// The byte ends a word: a space or a line feed.
pub open spec fn is_break_byte(c: u8) -> bool {
    c == SPACE || c == NEWLINE
}

/// Index of the first space or line feed at or after `i`, or the text length.
pub open spec fn word_end(t: Seq<u8>, i: int) -> int
    decreases t.len() - i,
{
    if i >= t.len() {
        t.len() as int
    } else if is_break_byte(t[i]) {
        i
    } else {
        word_end(t, i + 1)
    }
}

/// `(space width, width of the following word, index one past that word)` for
/// the space at `space_at`; every byte of the word follows the space, so all
/// of them carry a gap.
pub open spec fn lookahead_spec(
    m: GlyphMetrics,
    t: Seq<u8>,
    space_at: int,
    spacing: int,
    first_on_line: bool,
) -> (int, int, int) {
    let end = word_end(t, space_at + 1);
    (m.step(SPACE, spacing, first_on_line), m.advance_sum(t, spacing, space_at + 1, end), end)
}

/// The text that in-place word wrapping produces, continuing at byte `i` with
/// `line_w` pixels already used on the current line.
pub open spec fn wrap_in_place_from(
    m: GlyphMetrics,
    t: Seq<u8>,
    wrap_px: int,
    spacing: int,
    i: int,
    line_w: int,
) -> Seq<u8>
    decreases t.len() - i,
{
    if i < 0 || i >= t.len() {
        t
    } else if t[i] == NEWLINE {
        wrap_in_place_from(m, t, wrap_px, spacing, i + 1, 0)
    } else if t[i] == SPACE {
        let (space_w, next_w, next_end) = lookahead_spec(m, t, i, spacing, line_w == 0);
        if next_end > i + 1 && line_w > 0 && line_w + space_w + next_w > wrap_px {
            wrap_in_place_from(m, t.update(i, NEWLINE), wrap_px, spacing, i + 1, 0)
        } else {
            wrap_in_place_from(m, t, wrap_px, spacing, i + 1, line_w + space_w)
        }
    } else {
        wrap_in_place_from(m, t, wrap_px, spacing, i + 1, line_w + m.step(t[i], spacing, line_w == 0))
    }
}

/// In-place word wrapping of `t` at `wrap_px` pixels.
pub open spec fn wrap_in_place_spec(m: GlyphMetrics, t: Seq<u8>, wrap_px: int, spacing: int) -> Seq<u8> {
    wrap_in_place_from(m, t, wrap_px, spacing, 0, 0)
}

/// In-place wrapping only turns spaces into line feeds: the length stays and
/// every other byte is kept.
pub proof fn lemma_wrap_in_place_only_breaks_spaces(
    m: GlyphMetrics,
    t: Seq<u8>,
    wrap_px: int,
    spacing: int,
    i: int,
    line_w: int,
)
    ensures
        wrap_in_place_from(m, t, wrap_px, spacing, i, line_w).len() == t.len(),
        forall|j: int|
            0 <= j < t.len() ==> {
                let out = #[trigger] wrap_in_place_from(m, t, wrap_px, spacing, i, line_w)[j];
                out == t[j] || (t[j] == SPACE && out == NEWLINE && j >= i)
            },
    decreases t.len() - i,
{
    if i < 0 || i >= t.len() {
    } else if t[i] == NEWLINE {
        lemma_wrap_in_place_only_breaks_spaces(m, t, wrap_px, spacing, i + 1, 0);
    } else if t[i] == SPACE {
        let (space_w, next_w, next_end) = lookahead_spec(m, t, i, spacing, line_w == 0);
        if next_end > i + 1 && line_w > 0 && line_w + space_w + next_w > wrap_px {
            let u = t.update(i, NEWLINE);
            lemma_wrap_in_place_only_breaks_spaces(m, u, wrap_px, spacing, i + 1, 0);
            assert forall|j: int| 0 <= j < t.len() implies {
                let out = #[trigger] wrap_in_place_from(m, t, wrap_px, spacing, i, line_w)[j];
                out == t[j] || (t[j] == SPACE && out == NEWLINE && j >= i)
            } by {
                let out = wrap_in_place_from(m, u, wrap_px, spacing, i + 1, 0)[j];
                assert(out == u[j] || (u[j] == SPACE && out == NEWLINE && j >= i + 1));
            }
        } else {
            lemma_wrap_in_place_only_breaks_spaces(m, t, wrap_px, spacing, i + 1, line_w + space_w);
        }
    } else {
        lemma_wrap_in_place_only_breaks_spaces(
            m,
            t,
            wrap_px,
            spacing,
            i + 1,
            line_w + m.step(t[i], spacing, line_w == 0),
        );
    }
}

/// Texts that agree from `a` on but for spaces of `t` that are line feeds in
/// `f` have the same word ends from `a` on.
proof fn lemma_word_end_same(t: Seq<u8>, f: Seq<u8>, a: int)
    requires
        0 <= a,
        f.len() == t.len(),
        forall|j: int| a <= j < t.len() ==> #[trigger] f[j] == t[j] || (t[j] == SPACE && f[j] == NEWLINE),
    ensures
        word_end(f, a) == word_end(t, a),
        forall|j: int| a <= j < word_end(t, a) ==> #[trigger] f[j] == t[j],
    decreases t.len() - a,
{
    if a < t.len() {
        if !is_break_byte(t[a]) {
            lemma_word_end_same(t, f, a + 1);
        }
    }
}

/// Gapped advances over a range where two texts agree are equal.
proof fn lemma_advance_sum_same(m: GlyphMetrics, t: Seq<u8>, f: Seq<u8>, spacing: int, a: int, b: int)
    requires
        forall|j: int| a <= j < b ==> #[trigger] f[j] == t[j],
    ensures
        m.advance_sum(f, spacing, a, b) == m.advance_sum(t, spacing, a, b),
    decreases b - a,
{
    if b > a {
        lemma_advance_sum_same(m, t, f, spacing, a, b - 1);
    }
}

/// Wrapping again from byte `i` what wrapping from byte `i` produced changes
/// nothing.
proof fn lemma_wrap_fixed_from(m: GlyphMetrics, t: Seq<u8>, wrap_px: int, spacing: int, i: int, line_w: int)
    requires
        0 <= i,
    ensures
        ({
            let f = wrap_in_place_from(m, t, wrap_px, spacing, i, line_w);
            wrap_in_place_from(m, f, wrap_px, spacing, i, line_w) == f
        }),
    decreases t.len() - i,
{
    let f = wrap_in_place_from(m, t, wrap_px, spacing, i, line_w);
    lemma_wrap_in_place_only_breaks_spaces(m, t, wrap_px, spacing, i, line_w);
    if i < t.len() {
        if t[i] == NEWLINE {
            assert(f[i] == NEWLINE);
            lemma_wrap_fixed_from(m, t, wrap_px, spacing, i + 1, 0);
        } else if t[i] == SPACE {
            let (space_w, next_w, next_end) = lookahead_spec(m, t, i, spacing, line_w == 0);
            lemma_word_end_same(t, f, i + 1);
            lemma_advance_sum_same(m, t, f, spacing, i + 1, next_end);
            assert(lookahead_spec(m, f, i, spacing, line_w == 0) == (space_w, next_w, next_end));
            if next_end > i + 1 && line_w > 0 && line_w + space_w + next_w > wrap_px {
                let u = t.update(i, NEWLINE);
                lemma_wrap_in_place_only_breaks_spaces(m, u, wrap_px, spacing, i + 1, 0);
                assert(f[i] == u[i]);
                lemma_wrap_fixed_from(m, u, wrap_px, spacing, i + 1, 0);
            } else {
                lemma_wrap_in_place_only_breaks_spaces(m, t, wrap_px, spacing, i + 1, line_w + space_w);
                assert(f[i] == SPACE);
                lemma_wrap_fixed_from(m, t, wrap_px, spacing, i + 1, line_w + space_w);
            }
        } else {
            assert(f[i] == t[i]);
            lemma_wrap_fixed_from(m, t, wrap_px, spacing, i + 1, line_w + m.step(t[i], spacing, line_w == 0));
        }
    }
}

/// An already wrapped text is a fixed point of in-place word wrapping:
/// wrapping twice at one width and spacing wraps once.
pub proof fn law_wrapping_twice_wraps_once(m: GlyphMetrics, t: Seq<u8>, wrap_px: int, spacing: int)
    ensures
        wrap_in_place_spec(m, wrap_in_place_spec(m, t, wrap_px, spacing), wrap_px, spacing) == wrap_in_place_spec(
            m,
            t,
            wrap_px,
            spacing,
        ),
{
    lemma_wrap_fixed_from(m, t, wrap_px, spacing, 0, 0);
}

/// 4bpp bitmap font for the GBA, loaded from a binary font blob
pub trait AgbFont {
    /// Advance widths of the glyphs, in the order of their byte values, and
    /// the byte value of the first glyph.
    spec fn metrics(&self) -> GlyphMetrics;

    /// Packed pixel data of all glyphs.
    spec fn data_view(&self) -> Seq<u32>;

    /// Height of every glyph.
    spec fn height_view(&self) -> u32;

    /// Stored ink overhang of styled glyphs.
    spec fn overhang_view(&self) -> u8;

    /// Number of `u32`s per glyph.
    spec fn glyph_size_view(&self) -> usize;

    /// Number of `u32`s per glyph row.
    spec fn row_u32s_view(&self) -> usize;

    /// Advance widths in pixels for each character in the font's range
    fn char_widths(&self) -> (r: &[u8])
        ensures
            r@ == self.metrics().widths,
    ;

    /// Subtracted from a character's byte value to index into the widths.
    fn char_offset(&self) -> (r: usize)
        ensures
            r == self.metrics().offset,
    ;

    /// Raw 4bpp pixel data; 8 pixels packed per `u32`, row-major
    fn data(&self) -> (r: &[u32])
        ensures
            r@ == self.data_view(),
    ;

    /// Height of every glyph in pixels
    fn glyph_height(&self) -> (r: u32)
        ensures
            r == self.height_view(),
    ;

    /// Max pixels a styled (bold) glyph's ink may extend past its roman
    /// advance width; 0 for unstyled fonts
    fn right_overhang(&self) -> (r: u8)
        ensures
            r == self.overhang_view(),
    ;

    /// Number of `u32`s per glyph
    fn glyph_size(&self) -> (r: usize)
        ensures
            r == self.glyph_size_view(),
    ;

    /// Number of `u32`s per glyph row
    fn row_u32s(&self) -> (r: usize)
        ensures
            r == self.row_u32s_view(),
    ;

    /// Advance width in pixels for character `c`
    fn char_width(&self, c: u8) -> (r: u8)
        requires
            self.metrics().covers(c),
        ensures
            r == self.metrics().width(c),
    {
        let idx = c as usize;
        let off = self.char_offset();
        let widths = self.char_widths();
        widths[idx - off]
    }

    /// Advance width for `c` when it follows another character on the same
    /// line: its width plus `spacing` pixels of gap, clamped to at least 1px
    fn char_advance(&self, c: u8, char_spacing: i8) -> (r: u32)
        requires
            self.metrics().covers(c),
        ensures
            r == advance_of(self.metrics().width(c), char_spacing as int),
            1 <= r <= 382,
    {
        clamped_advance(self.char_width(c), char_spacing)
    }

    /// Pixels of gap inserted before `c` when it follows another character
    fn letter_gap(&self, c: u8, char_spacing: i8) -> (r: i32)
        requires
            self.metrics().covers(c),
        ensures
            r == advance_of(self.metrics().width(c), char_spacing as int) - self.metrics().width(c),
    {
        self.char_advance(c, char_spacing) as i32 - self.char_width(c) as i32
    }

    /// Advance for `c` at a given position in a line: the first character on a
    /// line gets no leading gap, every later one does
    fn char_step(&self, c: u8, char_spacing: i8, first_on_line: bool) -> (r: u32)
        requires
            self.metrics().covers(c),
        ensures
            r == self.metrics().step(c, char_spacing as int, first_on_line),
            r <= 382,
    {
        if first_on_line {
            self.char_width(c) as u32
        } else {
            self.char_advance(c, char_spacing)
        }
    }


    /// Measures one line of text, returning `(line_width_px, bytes_consumed)`
    ///
    /// `bytes_consumed` includes the terminating `\n` if present, so
    /// `&text[bytes_consumed..]` always starts the next line. Wrapping never
    /// splits off a zero-width line: the first character always fits. The
    /// returned width has no trailing gap after the last character.
    fn measure_line(&self, text: &[u8], wrap_at: Option<u32>, char_spacing: i8) -> (r: (
        u32,
        usize,
    ))
        requires
            self.metrics().covers_text(text@),
            text.len() <= MAX_TEXT_LEN,
        ensures
            (r.0 as int, r.1 as int) == measure_spec(
                self.metrics(),
                text@,
                wrap_at,
                char_spacing as int,
            ),
            is_line_break(self.metrics(), text@, wrap_at, char_spacing as int, r.0 as int, r.1 as int),
            r.0 <= 382 * text.len(),
    {
        let ghost m = self.metrics();
        let ghost sp = char_spacing as int;
        let mut width: u32 = 0;
        let mut i: usize = 0;
        while i < text.len()
            invariant
                0 <= i <= text.len(),
                text.len() <= MAX_TEXT_LEN,
                m == self.metrics(),
                sp == char_spacing as int,
                m.covers_text(text@),
                width as int == m.prefix_width(text@, sp, i as int),
                measure_spec(m, text@, wrap_at, sp) == measure_from(
                    m,
                    text@,
                    wrap_at,
                    sp,
                    i as int,
                    width as int,
                ),
                forall|j: int| 0 <= j < i ==> #[trigger] text@[j] != NEWLINE,
                wrap_at matches Some(max) ==> (i >= 2 ==> m.prefix_width(text@, sp, i as int) <= max),
                width <= 382 * i,
            decreases text.len() - i,
        {
            let c = text[i];
            if c == NEWLINE {
                return (width, i + 1);
            }
            proof {
                assert(m.covers(text@[i as int]));
                lemma_prefix_width_bounds(m, text@, sp, i as int);
            }
            let char_w = self.char_step(c, char_spacing, i == 0);
            match wrap_at {
                Some(max) => {
                    if i > 0 && width + char_w > max {
                        return (width, i);
                    }
                },
                None => {},
            }
            width = width + char_w;
            i = i + 1;
        }
        (width, text.len())
    }


    /// Returns the `(width, height)` in pixels required to render `text`, with
    /// optional line-wrapping
    ///
    /// `spacing` is the gap between adjacent characters and `line_spacing` the
    /// gap between adjacent lines; both sit between elements only, so n lines
    /// gain n-1 line gaps and a single line gains none
    fn size_of(&self, text: &[u8], wrap_at: Option<u32>, char_spacing: i8, line_spacing: i8) -> (r: (
        u32,
        u32,
    ))
        requires
            self.metrics().covers_text(text@),
            text.len() <= MAX_TEXT_LEN,
            self.height_view() <= 255,
        ensures
            (r.0 as int, r.1 as int) == size_spec(
                self.metrics(),
                self.height_view() as int,
                text@,
                wrap_at,
                char_spacing as int,
                line_spacing as int,
            ),
            r.0 <= 382 * text.len(),
            r.1 <= 255 + 382 * text.len(),
    {
        let ghost m = self.metrics();
        let ghost sp = char_spacing as int;
        if text.len() == 0 {
            return (0, 0);
        }
        let la = self.line_advance(line_spacing);
        let mut max_w: u32 = 0;
        let mut total_h: u32 = self.glyph_height();
        let mut pos: usize = 0;
        let ghost mut lines: int = 0;
        assert(text@.skip(0) =~= text@);
        loop
            invariant_except_break
                0 <= pos < text.len(),
                total_h as int == self.height_view() + lines * la,
            invariant
                text.len() <= MAX_TEXT_LEN,
                m == self.metrics(),
                sp == char_spacing as int,
                m.covers_text(text@),
                self.height_view() <= 255,
                la as int == line_advance_of(self.height_view() as int, line_spacing as int),
                la <= 382,
                0 <= lines <= pos <= text.len(),
                max_w <= 382 * pos,
                lines == 0 ==> pos == 0 && max_w == 0,
                ({
                    let rest = size_lines(m, text@.skip(pos as int), wrap_at, sp);
                    if lines == 0 {
                        size_lines(m, text@, wrap_at, sp) == rest
                    } else {
                        size_lines(m, text@, wrap_at, sp) == (if max_w > rest.0 {
                            max_w as int
                        } else {
                            rest.0
                        }, lines + rest.1)
                    }
                }),
            ensures
                pos == text.len(),
                lines >= 1,
                total_h as int == self.height_view() + (lines - 1) * la,
                total_h <= 255 + 382 * text.len(),
            decreases text.len() - pos,
        {
            let rest = &text[pos..text.len()];
            proof {
                assert(rest@ =~= text@.skip(pos as int));
                assert forall|i: int| 0 <= i < rest@.len() && rest@[i] != NEWLINE implies #[trigger] m.covers(
                    rest@[i],
                ) by {
                    assert(rest@[i] == text@[pos + i]);
                }
            }
            let (w, consumed) = self.measure_line(rest, wrap_at, char_spacing);
            proof {
                lemma_prefix_width_bounds(m, rest@, sp, line_glyphs(rest@, consumed as int));
                assert(rest@.skip(consumed as int) =~= text@.skip(pos + consumed));
            }
            if w > max_w {
                max_w = w;
            }
            pos = pos + consumed;
            proof {
                lines = lines + 1;
            }
            if pos == text.len() {
                proof {
                    assert(text@.skip(pos as int).len() == 0);
                    assert((lines - 1) * la <= 382 * text.len()) by (nonlinear_arith)
                        requires
                            la <= 382,
                            1 <= lines <= text.len(),
                    ;
                }
                break ;
            }
            proof {
                assert(lines * la <= lines * 382) by (nonlinear_arith)
                    requires
                        la <= 382,
                        lines >= 0,
                ;
                assert((lines - 1) * la + la == lines * la) by (nonlinear_arith);
            }
            total_h = total_h + la;
        }
        (max_w, total_h)
    }

    /// Widths of the space at `space_at` and of the word following it, plus
    /// the index one past that word. `first_on_line` suppresses the leading
    /// gap on the space
    fn word_lookahead(&self, text: &[u8], space_at: usize, char_spacing: i8, first_on_line: bool) -> (r: (
        u32,
        u32,
        usize,
    ))
        requires
            self.metrics().covers_text(text@),
            self.metrics().covers(SPACE),
            text.len() <= MAX_TEXT_LEN,
            space_at < text.len(),
        ensures
            (r.0 as int, r.1 as int, r.2 as int) == lookahead_spec(
                self.metrics(),
                text@,
                space_at as int,
                char_spacing as int,
                first_on_line,
            ),
            space_at < r.2 <= text.len(),
            r.1 <= 382 * (r.2 - space_at - 1),
    {
        let ghost m = self.metrics();
        let ghost sp = char_spacing as int;
        let space_w = self.char_step(SPACE, char_spacing, first_on_line);
        let next_start = space_at + 1;
        let mut end = next_start;
        let mut next_w: u32 = 0;
        while end < text.len() && text[end] != SPACE && text[end] != NEWLINE
            invariant
                next_start <= end <= text.len(),
                next_start == space_at + 1,
                text.len() <= MAX_TEXT_LEN,
                m == self.metrics(),
                sp == char_spacing as int,
                m.covers_text(text@),
                word_end(text@, next_start as int) == word_end(text@, end as int),
                next_w as int == m.advance_sum(text@, sp, next_start as int, end as int),
                next_w <= 382 * (end - next_start),
            decreases text.len() - end,
        {
            proof {
                assert(m.covers(text@[end as int]));
            }
            let a = self.char_advance(text[end], char_spacing);
            next_w = next_w + a;
            end = end + 1;
        }
        (space_w, next_w, end)
    }

    /// Mutate `text` in place for word-aware wrapping, replacing spaces with
    /// `\n` where the next word would overflow `wrap_px`
    ///
    /// Words longer than `wrap_px` are not split here, and hyphens are no
    /// break opportunity: the slice length is fixed
    fn word_wrap_in_place(&self, text: &mut [u8], wrap_px: u32, char_spacing: i8)
        requires
            self.metrics().covers_text(old(text)@),
            old(text).len() <= MAX_TEXT_LEN,
        ensures
            final(text)@ == wrap_in_place_spec(
                self.metrics(),
                old(text)@,
                wrap_px as int,
                char_spacing as int,
            ),
    {
        let ghost m = self.metrics();
        let ghost sp = char_spacing as int;
        let ghost orig = text@;
        let mut line_w: u32 = 0;
        let mut i: usize = 0;
        while i < text.len()
            invariant
                0 <= i <= text.len(),
                text.len() == orig.len(),
                text.len() <= MAX_TEXT_LEN,
                m == self.metrics(),
                sp == char_spacing as int,
                m.covers_text(text@),
                line_w <= 382 * i,
                wrap_in_place_spec(m, orig, wrap_px as int, sp) == wrap_in_place_from(
                    m,
                    text@,
                    wrap_px as int,
                    sp,
                    i as int,
                    line_w as int,
                ),
            decreases text.len() - i,
        {
            let c = text[i];
            if c == NEWLINE {
                line_w = 0;
            } else if c == SPACE {
                proof {
                    assert(m.covers(text@[i as int]));
                }
                let (space_w, next_w, next_end) = self.word_lookahead(text, i, char_spacing, line_w == 0);
                if next_end > i + 1 && line_w > 0 && line_w + space_w + next_w > wrap_px {
                    text[i] = NEWLINE;
                    line_w = 0;
                    proof {
                        assert forall|j: int| 0 <= j < text@.len() && text@[j] != NEWLINE implies #[trigger] m.covers(
                            text@[j],
                        ) by {}
                    }
                } else {
                    line_w = line_w + space_w;
                }
            } else {
                proof {
                    assert(m.covers(text@[i as int]));
                }
                line_w = line_w + self.char_step(c, char_spacing, line_w == 0);
            }
            i = i + 1;
        }
    }

    /// Return the pixel data for the glyph corresponding to `c`
    fn glyph(&self, c: u8) -> (r: &[u32])
        requires
            self.metrics().covers(c),
            (c - self.metrics().offset + 1) * self.glyph_size_view() <= self.data_view().len(),
        ensures
            r@ == self.data_view().subrange(
                (c - self.metrics().offset) * self.glyph_size_view(),
                (c - self.metrics().offset + 1) * self.glyph_size_view(),
            ),
    {
        let idx = c as usize - self.char_offset();
        let gs = self.glyph_size();
        let data = self.data();
        proof {
            assert((idx + 1) * gs == idx * gs + gs) by (nonlinear_arith);
            assert(0 <= idx * gs) by (nonlinear_arith);
            assert(idx * gs + gs <= data.len());
        }
        let offset = idx * gs;
        &data[offset..offset + gs]
    }

    /// Returns an iterator over visual lines of `text`
    ///
    /// Each item is `(line_slice, line_width_px)`. Set `word_wrap` to `true` to
    /// break at word (space) boundaries instead of character boundaries; when
    /// `wrap_px` is `None` it falls back to character-level breaking
    fn lines<'a>(&'a self, text: &'a [u8], wrap_px: Option<u32>, word_wrap: bool, char_spacing: i8) -> (r: Lines<'a, Self>)
        where Self: Sized
        ensures
            r.remaining_view() == text@,
            r.font_view() == self,
            r.metrics_view() == self.metrics(),
            r.wrap_view() == wrap_px,
            r.word_wrap_view() == word_wrap,
            r.spacing_view() == char_spacing,
    {
        Lines::new(self, text, wrap_px, word_wrap, char_spacing, Ghost(self.metrics()))
    }

    /// Vertical advance from the top of one line to the top of the next,
    /// clamped to at least 1px
    fn line_advance(&self, line_spacing: i8) -> (r: u32)
        requires
            self.height_view() <= 255,
        ensures
            r == line_advance_of(self.height_view() as int, line_spacing as int),
            1 <= r <= 382,
    {
        let h: i32 = self.glyph_height() as i32 + line_spacing as i32;
        if h >= 1 {
            h as u32
        } else {
            1
        }
    }
}

} // verus!

use vstd::prelude::*;
use crate::font::{is_line_break, line_glyphs, measure_from, measure_spec, word_end, AgbFont};
use crate::metrics::{
    lemma_advance_sum_bounds, lemma_prefix_width_bounds, GlyphMetrics, HYPHEN, MAX_TEXT_LEN,
    NEWLINE, SPACE,
};

verus! {

/// One past the first hyphen in `t[i..end]`, or `end` when there is none.
pub open spec fn hyphen_end(t: Seq<u8>, i: int, end: int) -> int
    decreases end - i,
{
    if i >= end {
        end
    } else if t[i] == HYPHEN {
        i + 1
    } else {
        hyphen_end(t, i + 1, end)
    }
}

/// `(width, end)` of the unbreakable fragment starting at `start`: it ends at
/// a space or line feed, or just after a hyphen; every byte of it carries a
/// gap.
pub open spec fn fragment_spec(m: GlyphMetrics, t: Seq<u8>, spacing: int, start: int) -> (int, int) {
    let end = hyphen_end(t, start, word_end(t, start));
    (m.advance_sum(t, spacing, start, end), end)
}

/// Greedy word wrapping of one line from byte `i` with `line_w` pixels used:
/// `(end of the line, start of the rest, line width)`. A break at a space
/// consumes the space, a break after a hyphen keeps the hyphen on the line,
/// a hard break inside an overlong word and a line feed consume nothing more.
pub open spec fn word_wrap_from(
    m: GlyphMetrics,
    t: Seq<u8>,
    wrap_px: int,
    spacing: int,
    i: int,
    line_w: int,
) -> (int, int, int)
    decreases t.len() - i,
{
    if i < 0 || i >= t.len() {
        (t.len() as int, t.len() as int, line_w)
    } else {
        let c = t[i];
        if c == NEWLINE {
            (i, i + 1, line_w)
        } else if c == SPACE {
            let space_w = m.step(c, spacing, i == 0);
            let (next_w, next_end) = fragment_spec(m, t, spacing, i + 1);
            if next_end > i + 1 && line_w > 0 && line_w + space_w + next_w > wrap_px {
                (i, i + 1, line_w)
            } else {
                word_wrap_from(m, t, wrap_px, spacing, i + 1, line_w + space_w)
            }
        } else if c == HYPHEN {
            let char_w = m.step(c, spacing, i == 0);
            if i > 0 && line_w + char_w > wrap_px {
                (i, i, line_w)
            } else {
                let (next_w, next_end) = fragment_spec(m, t, spacing, i + 1);
                if next_end > i + 1 && line_w + char_w + next_w > wrap_px {
                    (i + 1, i + 1, line_w + char_w)
                } else {
                    word_wrap_from(m, t, wrap_px, spacing, i + 1, line_w + char_w)
                }
            }
        } else {
            let char_w = m.step(c, spacing, i == 0);
            if i > 0 && line_w + char_w > wrap_px {
                (i, i, line_w)
            } else {
                word_wrap_from(m, t, wrap_px, spacing, i + 1, line_w + char_w)
            }
        }
    }
}

/// `(line length, start of the rest, line width)` of the next visual line of
/// a non-empty `t`.
pub open spec fn next_line_spec(
    m: GlyphMetrics,
    t: Seq<u8>,
    wrap_px: Option<u32>,
    word_wrap: bool,
    spacing: int,
) -> (int, int, int) {
    if word_wrap && wrap_px is Some {
        word_wrap_from(m, t, wrap_px->0 as int, spacing, 0, 0)
    } else {
        let (w, n) = measure_spec(m, t, wrap_px, spacing);
        (line_glyphs(t, n), n, w)
    }
}


/// A suffix of covered text is covered.
pub proof fn lemma_skip_covered(m: GlyphMetrics, t: Seq<u8>, n: int)
    requires
        m.covers_text(t),
        0 <= n <= t.len(),
    ensures
        m.covers_text(t.skip(n)),
{
    assert forall|i: int| 0 <= i < t.skip(n).len() && t.skip(n)[i] != NEWLINE implies #[trigger] m.covers(
        t.skip(n)[i],
    ) by {
        assert(t.skip(n)[i] == t[n + i]);
    }
}

/// Shape of the next line: the line is a prefix of the text, at most one
/// separating byte (a space or line feed) is consumed after it, and a
/// non-empty text always advances.
pub proof fn lemma_next_line_shape(
    m: GlyphMetrics,
    t: Seq<u8>,
    wrap_px: Option<u32>,
    word_wrap: bool,
    spacing: int,
)
    requires
        t.len() > 0,
    ensures
        ({
            let (e, rest, w) = next_line_spec(m, t, wrap_px, word_wrap, spacing);
            &&& 0 <= e <= rest <= t.len()
            &&& rest >= 1
            &&& rest <= e + 1
        }),
{
    if word_wrap && wrap_px is Some {
        lemma_word_wrap_shape(m, t, wrap_px->0 as int, spacing, 0, 0);
    } else {
        lemma_measure_from_shape(m, t, wrap_px, spacing, 0, 0);
    }
}

proof fn lemma_measure_from_shape(
    m: GlyphMetrics,
    t: Seq<u8>,
    wrap_px: Option<u32>,
    spacing: int,
    i: int,
    width: int,
)
    requires
        0 <= i <= t.len(),
        t.len() > 0,
    ensures
        ({
            let (w, n) = measure_from(m, t, wrap_px, spacing, i, width);
            &&& i <= n <= t.len()
            &&& n >= 1
            &&& 0 <= line_glyphs(t, n) <= n <= line_glyphs(t, n) + 1
        }),
    decreases t.len() - i,
{
    if i < t.len() && t[i] != NEWLINE {
        let w = m.step(t[i], spacing, i == 0);
        lemma_measure_from_shape(m, t, wrap_px, spacing, i + 1, width + w);
    }
}

proof fn lemma_word_wrap_shape(m: GlyphMetrics, t: Seq<u8>, wrap_px: int, spacing: int, i: int, line_w: int)
    requires
        0 <= i <= t.len(),
        t.len() > 0,
    ensures
        ({
            let (e, rest, w) = word_wrap_from(m, t, wrap_px, spacing, i, line_w);
            &&& i <= e <= rest <= t.len()
            &&& rest >= 1
            &&& rest <= e + 1
        }),
    decreases t.len() - i,
{
    if i < t.len() {
        let c = t[i];
        if c == SPACE {
            lemma_word_wrap_shape(m, t, wrap_px, spacing, i + 1, line_w + m.step(c, spacing, i == 0));
        } else if c == HYPHEN {
            lemma_word_wrap_shape(m, t, wrap_px, spacing, i + 1, line_w + m.step(c, spacing, i == 0));
        } else if c != NEWLINE {
            lemma_word_wrap_shape(m, t, wrap_px, spacing, i + 1, line_w + m.step(c, spacing, i == 0));
        }
    }
}

/// A visual line holds no line feed.
pub proof fn lemma_next_line_no_newline(
    m: GlyphMetrics,
    t: Seq<u8>,
    wrap_px: Option<u32>,
    word_wrap: bool,
    spacing: int,
)
    requires
        t.len() > 0,
    ensures
        forall|j: int|
            0 <= j < next_line_spec(m, t, wrap_px, word_wrap, spacing).0 ==> #[trigger] t[j] != NEWLINE,
{
    if word_wrap && wrap_px is Some {
        lemma_word_wrap_no_newline(m, t, wrap_px->0 as int, spacing, 0, 0);
    } else {
        lemma_measure_no_newline(m, t, wrap_px, spacing, 0, 0);
    }
}

proof fn lemma_measure_no_newline(m: GlyphMetrics, t: Seq<u8>, wrap_px: Option<u32>, spacing: int, i: int, width: int)
    requires
        0 <= i <= t.len(),
        forall|j: int| 0 <= j < i ==> #[trigger] t[j] != NEWLINE,
    ensures
        forall|j: int|
            0 <= j < line_glyphs(t, measure_from(m, t, wrap_px, spacing, i, width).1) ==> #[trigger] t[j] != NEWLINE,
    decreases t.len() - i,
{
    if i < t.len() && t[i] != NEWLINE {
        let w = m.step(t[i], spacing, i == 0);
        match wrap_px {
            Some(max) => {
                if !(i > 0 && width + w > max) {
                    lemma_measure_no_newline(m, t, wrap_px, spacing, i + 1, width + w);
                }
            },
            None => {
                lemma_measure_no_newline(m, t, wrap_px, spacing, i + 1, width + w);
            },
        }
    }
}

proof fn lemma_word_wrap_no_newline(m: GlyphMetrics, t: Seq<u8>, wrap_px: int, spacing: int, i: int, line_w: int)
    requires
        0 <= i <= t.len(),
        forall|j: int| 0 <= j < i ==> #[trigger] t[j] != NEWLINE,
    ensures
        forall|j: int| 0 <= j < word_wrap_from(m, t, wrap_px, spacing, i, line_w).0 ==> #[trigger] t[j] != NEWLINE,
    decreases t.len() - i,
{
    if i < t.len() {
        let c = t[i];
        if c == SPACE {
            lemma_word_wrap_no_newline(m, t, wrap_px, spacing, i + 1, line_w + m.step(c, spacing, i == 0));
        } else if c == HYPHEN {
            lemma_word_wrap_no_newline(m, t, wrap_px, spacing, i + 1, line_w + m.step(c, spacing, i == 0));
        } else if c != NEWLINE {
            lemma_word_wrap_no_newline(m, t, wrap_px, spacing, i + 1, line_w + m.step(c, spacing, i == 0));
        }
    }
}

/// Iterator over visual lines of text, returned by [`AgbFont::lines`].
///
/// Each item is `(line_slice, line_width_px)`. Word-wrap boundaries consume
/// the space character; a break after a hyphen keeps the hyphen at the end of
/// the line and consumes nothing; hard-wrap and explicit `\n` boundaries do
/// not consume extra bytes.
pub struct Lines<'a, F> {
    font: &'a F,
    remaining: &'a [u8],
    wrap_px: Option<u32>,
    word_wrap: bool,
    spacing: i8,
    metrics: Ghost<GlyphMetrics>,
}

impl<'a, F> Lines<'a, F> {
    /// The text not yet split into lines.
    pub closed spec fn remaining_view(&self) -> Seq<u8> {
        self.remaining@
    }

    /// The font the lines are measured with.
    pub closed spec fn font_view(&self) -> &'a F {
        self.font
    }

    /// The metrics of that font.
    pub closed spec fn metrics_view(&self) -> GlyphMetrics {
        self.metrics@
    }

    /// The wrap width.
    pub closed spec fn wrap_view(&self) -> Option<u32> {
        self.wrap_px
    }

    /// Whether lines break at words.
    pub closed spec fn word_wrap_view(&self) -> bool {
        self.word_wrap
    }

    /// The letter spacing.
    pub closed spec fn spacing_view(&self) -> i8 {
        self.spacing
    }

    /// A line iterator over `text`, measured with `metrics`.
    pub(crate) fn new(
        font: &'a F,
        text: &'a [u8],
        wrap_px: Option<u32>,
        word_wrap: bool,
        char_spacing: i8,
        metrics: Ghost<GlyphMetrics>,
    ) -> (r: Self)
        ensures
            r.remaining_view() == text@,
            r.font_view() == font,
            r.metrics_view() == metrics@,
            r.wrap_view() == wrap_px,
            r.word_wrap_view() == word_wrap,
            r.spacing_view() == char_spacing,
    {
        Lines { font, remaining: text, wrap_px, word_wrap, spacing: char_spacing, metrics }
    }
}

impl<'a, F: AgbFont> Lines<'a, F> {
    /// The recorded metrics are the font's, every byte left has a glyph and
    /// the text is short enough to measure.
    pub open spec fn wf(&self) -> bool {
        &&& self.metrics_view() == self.font_view().metrics()
        &&& self.metrics_view().covers_text(self.remaining_view())
        &&& self.remaining_view().len() <= MAX_TEXT_LEN
    }

    /// Width of the unbreakable fragment starting at `start` and the index one
    /// past it. A fragment ends at a space or newline, or just after a hyphen,
    /// the next break opportunity. Every fragment character follows another
    /// character, so all of them carry a gap.
    fn fragment(&self, text: &[u8], start: usize) -> (r: (u32, usize))
        requires
            self.font.metrics().covers_text(text@),
            text.len() <= MAX_TEXT_LEN,
            start <= text.len(),
        ensures
            (r.0 as int, r.1 as int) == fragment_spec(self.font.metrics(), text@, self.spacing as int, start as int),
            start <= r.1 <= text.len(),
            r.0 <= 382 * (r.1 - start),
    {
        let ghost m = self.font.metrics();
        let mut end = start;
        while end < text.len() && text[end] != SPACE && text[end] != NEWLINE
            invariant
                start <= end <= text.len(),
                word_end(text@, start as int) == word_end(text@, end as int),
                forall|j: int| start <= j < end ==> #[trigger] text@[j] != NEWLINE,
            decreases text.len() - end,
        {
            end = end + 1;
        }
        let mut stop = start;
        while stop < end && text[stop] != HYPHEN
            invariant
                start <= stop <= end <= text.len(),
                forall|j: int| start <= j < end ==> #[trigger] text@[j] != NEWLINE,
                hyphen_end(text@, start as int, end as int) == hyphen_end(text@, stop as int, end as int),
            decreases end - stop,
        {
            stop = stop + 1;
        }
        let frag_end = if stop < end { stop + 1 } else { end };
        let mut w: u32 = 0;
        let mut k = start;
        while k < frag_end
            invariant
                start <= k <= frag_end <= text.len(),
                text.len() <= MAX_TEXT_LEN,
                m == self.font.metrics(),
                m.covers_text(text@),
                forall|j: int| start <= j < frag_end ==> #[trigger] text@[j] != NEWLINE,
                w as int == m.advance_sum(text@, self.spacing as int, start as int, k as int),
                w <= 382 * (k - start),
            decreases frag_end - k,
        {
            proof {
                assert(text@[k as int] != NEWLINE);
                assert(m.covers(text@[k as int]));
            }
            w = w + self.font.char_advance(text[k], self.spacing);
            k = k + 1;
        }
        (w, frag_end)
    }

    fn next_word_wrapped(&mut self, wrap_px: u32) -> (r: (&'a [u8], u32))
        requires
            old(self).wf(),
        ensures
            ({
                let (e, rest, w) = word_wrap_from(
                    old(self).metrics_view(),
                    old(self).remaining_view(),
                    wrap_px as int,
                    old(self).spacing as int,
                    0,
                    0,
                );
                &&& r.0@ == old(self).remaining_view().take(e)
                &&& r.1 as int == w
                &&& final(self).remaining_view() == old(self).remaining_view().skip(rest)
            }),
            r.1 <= 382 * old(self).remaining_view().len(),
            final(self).font == old(self).font,
            final(self).metrics == old(self).metrics,
            final(self).wrap_px == old(self).wrap_px,
            final(self).word_wrap == old(self).word_wrap,
            final(self).spacing == old(self).spacing,
    {
        let ghost m = self.metrics@;
        let ghost sp = self.spacing as int;
        let text = self.remaining;
        let mut line_w: u32 = 0;
        let mut i: usize = 0;
        while i < text.len()
            invariant
                0 <= i <= text.len(),
                text@ == old(self).remaining_view(),
                *self == *old(self),
                old(self).metrics_view() == m,
                old(self).spacing as int == sp,
                m == self.font.metrics(),
                sp == self.spacing as int,
                m.covers_text(text@),
                text.len() <= MAX_TEXT_LEN,
                line_w <= 382 * i,
                word_wrap_from(m, text@, wrap_px as int, sp, 0, 0) == word_wrap_from(
                    m,
                    text@,
                    wrap_px as int,
                    sp,
                    i as int,
                    line_w as int,
                ),
            decreases text.len() - i,
        {
            let c = text[i];
            if c == NEWLINE {
                proof {
                    assert(word_wrap_from(m, text@, wrap_px as int, sp, i as int, line_w as int) == (
                    i as int, i + 1, line_w as int));
                }
                proof {
                    assert(text@.subrange(i + 1 as int, text.len() as int) =~= text@.skip(i + 1 as int));
                    assert(text@.subrange(0, i as int) =~= text@.take(i as int));
                }
                self.remaining = &text[i + 1..text.len()];
                return (&text[0..i], line_w);
            }
            proof {
                assert(m.covers(text@[i as int]));
            }
            if c == SPACE {
                let space_w = self.font.char_step(c, self.spacing, i == 0);
                let (next_w, next_end) = self.fragment(text, i + 1);
                if next_end > i + 1 && line_w > 0 && line_w + space_w + next_w > wrap_px {
                    proof {
                        assert(text@.subrange(i + 1 as int, text.len() as int) =~= text@.skip(i + 1 as int));
                        assert(text@.subrange(0, i as int) =~= text@.take(i as int));
                    }
                    self.remaining = &text[i + 1..text.len()];
                    return (&text[0..i], line_w);
                }
                line_w = line_w + space_w;
            } else if c == HYPHEN {
                let char_w = self.font.char_step(c, self.spacing, i == 0);
                if i > 0 && line_w + char_w > wrap_px {
                    proof {
                        assert(text@.subrange(i as int, text.len() as int) =~= text@.skip(i as int));
                        assert(text@.subrange(0, i as int) =~= text@.take(i as int));
                    }
                    self.remaining = &text[i..text.len()];
                    return (&text[0..i], line_w);
                }
                line_w = line_w + char_w;
                let (next_w, next_end) = self.fragment(text, i + 1);
                if next_end > i + 1 && line_w + next_w > wrap_px {
                    proof {
                        assert(text@.subrange(i + 1 as int, text.len() as int) =~= text@.skip(i + 1 as int));
                        assert(text@.subrange(0, i + 1 as int) =~= text@.take(i + 1 as int));
                    }
                    self.remaining = &text[i + 1..text.len()];
                    return (&text[0..i + 1], line_w);
                }
            } else {
                let char_w = self.font.char_step(c, self.spacing, i == 0);
                if i > 0 && line_w + char_w > wrap_px {
                    proof {
                        assert(word_wrap_from(m, text@, wrap_px as int, sp, i as int, line_w as int) == (
                        i as int, i as int, line_w as int));
                    }
                    proof {
                        assert(text@.subrange(i as int, text.len() as int) =~= text@.skip(i as int));
                        assert(text@.subrange(0, i as int) =~= text@.take(i as int));
                    }
                    self.remaining = &text[i..text.len()];
                    return (&text[0..i], line_w);
                }
                line_w = line_w + char_w;
            }
            i = i + 1;
        }
        self.remaining = &text[text.len()..text.len()];
        proof {
            assert(text@.take(text.len() as int) =~= text@);
        }
        (text, line_w)
    }

    /// The next visual line and its width in pixels, or `None` once the text
    /// is used up
    pub fn next(&mut self) -> (r: Option<(&'a [u8], u32)>)
        requires
            old(self).wf(),
        ensures
            final(self).wf(),
            final(self).metrics_view() == old(self).metrics_view(),
            final(self).font_view() == old(self).font_view(),
            final(self).wrap_view() == old(self).wrap_view(),
            final(self).word_wrap_view() == old(self).word_wrap_view(),
            final(self).spacing_view() == old(self).spacing_view(),
            old(self).remaining_view().len() == 0 ==> r is None && final(self).remaining_view()
                == old(self).remaining_view(),
            old(self).remaining_view().len() > 0 ==> ({
                let (e, rest, w) = next_line_spec(
                    old(self).metrics_view(),
                    old(self).remaining_view(),
                    old(self).wrap_view(),
                    old(self).word_wrap_view(),
                    old(self).spacing_view() as int,
                );
                &&& r matches Some((line, width)) && line@ == old(self).remaining_view().take(e)
                    && width as int == w && width <= 382 * old(self).remaining_view().len()
                &&& final(self).remaining_view() == old(self).remaining_view().skip(rest)
            }),
    {
        if self.remaining.len() == 0 {
            return None;
        }
        let ghost t = self.remaining@;
        let ghost m = self.font.metrics();
        proof {
            lemma_next_line_shape(m, t, self.wrap_px, self.word_wrap, self.spacing as int);
        }
        if self.word_wrap {
            match self.wrap_px {
                Some(wrap) => {
                    let r = self.next_word_wrapped(wrap);
                    proof {
                        lemma_skip_covered(m, t, next_line_spec(m, t, self.wrap_px, self.word_wrap, self.spacing as int).1);
                    }
                    return Some(r);
                },
                None => {},
            }
        }
        let rem = self.remaining;
        let (width, consumed) = self.font.measure_line(rem, self.wrap_px, self.spacing);
        let ends_newline = consumed > 0 && rem[consumed - 1] == NEWLINE;
        let line = if ends_newline {
            &rem[0..consumed - 1]
        } else {
            &rem[0..consumed]
        };
        self.remaining = &rem[consumed..rem.len()];
        proof {
            lemma_skip_covered(m, t, consumed as int);
        }
        Some((line, width))
    }
}

} // verus!

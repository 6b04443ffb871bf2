use vstd::prelude::*;
use crate::font::AgbFont;
use crate::layout::{font_advance, lemma_visual_lines_unfold, max_line_width, visual_lines, MAX_DRAW_LEN};
use crate::metrics::{lemma_prefix_width_bounds, GlyphMetrics, NEWLINE};
use crate::renderer::{x_offset, x_offset_spec};
use crate::sprite::{
    flush_sprite, sprite_font_ok, sprite_height_for, sprite_height_spec, sprite_holds_run, valid_widths_for_height,
    valid_widths_spec, SpriteObject, SpriteRun,
};
use crate::text_format::{TextAlign, TextFormat, TextOverflow};
use crate::text_renderer::overflow_wrap;

verus! {

/// The glyph of byte `n` of a line that starts at `start_x` has its left
/// edge at or past the cutoff.
pub open spec fn past_cutoff(m: GlyphMetrics, line: Seq<u8>, start_x: int, spacing: int, cutoff: Option<int>, n: int) -> bool {
    match cutoff {
        Some(cx) => start_x + m.prefix_width(line, spacing, n + 1) - m.width(line[n]) >= cx,
        None => false,
    }
}

/// Number of bytes of a line that are drawn, counting from byte `n`:
/// drawing stops at the first glyph whose left edge reaches the cutoff.
pub open spec fn drawn_count(m: GlyphMetrics, line: Seq<u8>, start_x: int, spacing: int, cutoff: Option<int>, n: int) -> int
    decreases line.len() - n,
{
    if n >= line.len() {
        line.len() as int
    } else if past_cutoff(m, line, start_x, spacing, cutoff, n) {
        n
    } else {
        drawn_count(m, line, start_x, spacing, cutoff, n + 1)
    }
}

/// A glyph offset as it is stored: negative offsets wrap around.
pub open spec fn wrap_offset(o: int) -> u32 {
    if o >= 0 {
        o as u32
    } else {
        (o + 0x1_0000_0000) as u32
    }
}

/// The first `n` glyphs of a line packed into sprites: the runs already
/// closed and the open one. A glyph joins the open run when, with its gap,
/// it ends within `limit` pixels of the run's left edge; otherwise it opens
/// a new run at its own left edge.
pub open spec fn pack_line(m: GlyphMetrics, line: Seq<u8>, start_x: int, y: int, spacing: int, limit: int, n: int) -> (
    Seq<SpriteRun>,
    SpriteRun,
)
    decreases n,
{
    if n <= 0 {
        (Seq::empty(), (start_x, y, Seq::empty(), 0))
    } else {
        let (closed, open) = pack_line(m, line, start_x, y, spacing, limit, n - 1);
        let c = line[n - 1];
        let cw = m.width(c);
        let gap = m.step(c, spacing, n - 1 == 0) - cw;
        let offset = if open.2.len() == 0 {
            0
        } else {
            open.3 + gap
        };
        if offset + cw > limit {
            (
                if open.2.len() > 0 {
                    closed.push(open)
                } else {
                    closed
                },
                (start_x + m.prefix_width(line, spacing, n - 1) + gap, y, seq![(c, 0u32)], cw),
            )
        } else {
            (closed, (open.0, open.1, open.2.push((c, wrap_offset(offset))), offset + cw))
        }
    }
}

/// The sprite runs of one line: its drawn glyphs, packed.
pub open spec fn line_runs(
    m: GlyphMetrics,
    line: Seq<u8>,
    start_x: int,
    y: int,
    spacing: int,
    limit: int,
    cutoff: Option<int>,
) -> Seq<SpriteRun> {
    let (closed, open) = pack_line(m, line, start_x, y, spacing, limit, drawn_count(m, line, start_x, spacing, cutoff, 0));
    if open.2.len() > 0 {
        closed.push(open)
    } else {
        closed
    }
}

/// The sprite runs of visual lines, in order: line `i` starts at its aligned
/// offset from `pos_x` on row `pos_y + i * advance`.
pub open spec fn text_runs(
    m: GlyphMetrics,
    lines: Seq<(Seq<u8>, int)>,
    pos_x: int,
    pos_y: int,
    align: TextAlign,
    spacing: int,
    advance: int,
    limit: int,
    cutoff: Option<int>,
) -> Seq<SpriteRun>
    decreases lines.len(),
{
    if lines.len() == 0 {
        Seq::empty()
    } else {
        let i = lines.len() - 1;
        text_runs(m, lines.drop_last(), pos_x, pos_y, align, spacing, advance, limit, cutoff) + line_runs(
            m,
            lines.last().0,
            pos_x + x_offset_spec(lines.last().1, align),
            pos_y + i * advance,
            spacing,
            limit,
            cutoff,
        )
    }
}

/// What drawing visual lines into sprites returns: the cursor past the last
/// drawn glyph relative to the origin (y at the top of the last line) and
/// the width of the longest line; `(0, 0, 0)` for no line.
pub open spec fn sprite_layout_result(
    m: GlyphMetrics,
    lines: Seq<(Seq<u8>, int)>,
    pos_x: int,
    align: TextAlign,
    spacing: int,
    advance: int,
    cutoff: Option<int>,
) -> (int, int, int) {
    if lines.len() == 0 {
        (0, 0, 0)
    } else {
        let last = lines.last();
        let dx = x_offset_spec(last.1, align);
        (
            dx + m.prefix_width(last.0, spacing, drawn_count(m, last.0, pos_x + dx, spacing, cutoff, 0)),
            (lines.len() - 1) * advance,
            max_line_width(lines),
        )
    }
}

/// Absolute cutoff of a format drawn at `pos`.
pub open spec fn format_cutoff(format: TextFormat, pos: (i32, i32)) -> Option<int> {
    match format.overflow {
        TextOverflow::Cutoff(w) => Some(pos.0 + w),
        _ => None,
    }
}

/// Widest run of glyph advances that one sprite holds beside the font's
/// overhang.
pub open spec fn sprite_limit<T: AgbFont>(font: &T) -> int {
    valid_widths_spec(sprite_height_spec(font.height_view())).last() - font.overhang_view()
}

/// The sprite runs of `text` drawn at `pos` with `format`.
pub open spec fn sprite_text_runs<T: AgbFont>(
    font: &T,
    text: Seq<u8>,
    pos: (i32, i32),
    format: TextFormat,
    spacing: i8,
    line_spacing: i8,
) -> Seq<SpriteRun> {
    let m = font.metrics();
    let (wrap_px, word_wrap) = overflow_wrap(format.overflow);
    text_runs(
        m,
        visual_lines(m, text, wrap_px, word_wrap, spacing as int),
        pos.0 as int,
        pos.1 as int,
        format.align,
        spacing as int,
        font_advance(font, line_spacing),
        sprite_limit(font),
        format_cutoff(format, pos),
    )
}

/// What drawing `text` at `pos` with `format` into sprites returns.
pub open spec fn sprite_draw_result<T: AgbFont>(
    font: &T,
    text: Seq<u8>,
    pos: (i32, i32),
    format: TextFormat,
    spacing: i8,
    line_spacing: i8,
) -> (int, int, int) {
    let m = font.metrics();
    let (wrap_px, word_wrap) = overflow_wrap(format.overflow);
    sprite_layout_result(
        m,
        visual_lines(m, text, wrap_px, word_wrap, spacing as int),
        pos.0 as int,
        format.align,
        spacing as int,
        font_advance(font, line_spacing),
        format_cutoff(format, pos),
    )
}

/// `objs` is `base` followed by one sprite holding each run, in order.
pub open spec fn holds_runs<T: AgbFont>(
    objs: Seq<SpriteObject>,
    base: Seq<SpriteObject>,
    font: &T,
    runs: Seq<SpriteRun>,
) -> bool {
    let sprite_h = sprite_height_spec(font.height_view());
    &&& objs.len() == base.len() + runs.len()
    &&& forall|i: int| 0 <= i < base.len() ==> #[trigger] objs[i] == base[i]
    &&& forall|i: int|
        0 <= i < runs.len() ==> sprite_holds_run(#[trigger] objs[base.len() + i], font, runs[i], sprite_h, valid_widths_spec(sprite_h))
}

/// Appending a sprite that holds one more run keeps the runs held.
proof fn lemma_holds_push<T: AgbFont>(
    objs: Seq<SpriteObject>,
    objs2: Seq<SpriteObject>,
    base: Seq<SpriteObject>,
    font: &T,
    runs: Seq<SpriteRun>,
    run: SpriteRun,
)
    requires
        holds_runs(objs, base, font, runs),
        objs2.len() == objs.len() + 1,
        forall|i: int| 0 <= i < objs.len() ==> #[trigger] objs2[i] == objs[i],
        sprite_holds_run(
            objs2.last(),
            font,
            run,
            sprite_height_spec(font.height_view()),
            valid_widths_spec(sprite_height_spec(font.height_view())),
        ),
    ensures
        holds_runs(objs2, base, font, runs.push(run)),
{
    let r2 = runs.push(run);
    assert forall|i: int| 0 <= i < base.len() implies #[trigger] objs2[i] == base[i] by {
        assert(objs2[i] == objs[i]);
    }
    assert forall|i: int| 0 <= i < r2.len() implies sprite_holds_run(
        #[trigger] objs2[base.len() + i],
        font,
        r2[i],
        sprite_height_spec(font.height_view()),
        valid_widths_spec(sprite_height_spec(font.height_view())),
    ) by {
        if i < runs.len() {
            assert(objs2[base.len() + i] == objs[base.len() + i]);
        }
    }
}

/// Text rasterised into GBA sprites, several glyphs per sprite to use few
/// object slots.
pub struct SpriteTextRenderer {
    /// Extra pixels between adjacent characters (default 1)
    pub letter_spacing: i8,
    /// Extra pixels between adjacent lines (default 0)
    pub line_spacing: i8,
    objects: Vec<SpriteObject>,
}

impl SpriteTextRenderer {
    /// The sprites rendered so far, in order.
    pub closed spec fn objects_view(&self) -> Seq<SpriteObject> {
        self.objects@
    }

    /// Extra pixels between adjacent characters.
    pub closed spec fn letter_spacing_view(&self) -> i8 {
        self.letter_spacing
    }

    /// Extra pixels between adjacent lines.
    pub closed spec fn line_spacing_view(&self) -> i8 {
        self.line_spacing
    }

    /// A renderer with no sprites, letter spacing 1 and line spacing 0.
    pub fn new() -> (r: Self)
        ensures
            r.letter_spacing_view() == 1,
            r.line_spacing_view() == 0,
            r.objects_view().len() == 0,
    {
        SpriteTextRenderer { letter_spacing: 1, line_spacing: 0, objects: Vec::new() }
    }

    /// The sprites rendered so far.
    pub fn objects(&self) -> (r: &[SpriteObject])
        ensures
            r@ == self.objects_view(),
    {
        self.objects.as_slice()
    }

    /// Drops every rendered sprite.
    pub fn clear(&mut self)
        ensures
            final(self).objects_view().len() == 0,
            final(self).letter_spacing_view() == old(self).letter_spacing_view(),
            final(self).line_spacing_view() == old(self).line_spacing_view(),
    {
        self.objects.clear();
    }

    /// Number of object slots this renderer uses per frame
    pub fn object_count(&self) -> (r: usize)
        ensures
            r == self.objects_view().len(),
    {
        self.objects.len()
    }

    /// Rasterise `text` into sprites starting at `pos`, after the sprites
    /// already rendered (see `sprite_text_runs`)
    ///
    /// Returns `(cursor_dx, cursor_dy, longest_line_px)`: the cursor after the
    /// last drawn character relative to `pos` (y at the top of the last line)
    /// and the width of the longest line
    pub fn draw_text<T: AgbFont>(&mut self, text: &[u8], font: &T, pos: (i32, i32), format: &TextFormat) -> (r: (
        i32,
        i32,
        i32,
    ))
        requires
            sprite_font_ok(font),
            font.metrics().covers_text(text@),
            text.len() <= MAX_DRAW_LEN,
            -0x1000_0000 <= pos.0 < 0x1000_0000,
            -0x1000_0000 <= pos.1 < 0x1000_0000,
        ensures
            final(self).letter_spacing_view() == old(self).letter_spacing_view(),
            final(self).line_spacing_view() == old(self).line_spacing_view(),
            holds_runs(
                final(self).objects_view(),
                old(self).objects_view(),
                font,
                sprite_text_runs(
                    font,
                    text@,
                    pos,
                    *format,
                    old(self).letter_spacing_view(),
                    old(self).line_spacing_view(),
                ),
            ),
            (r.0 as int, r.1 as int, r.2 as int) == sprite_draw_result(
                font,
                text@,
                pos,
                *format,
                old(self).letter_spacing_view(),
                old(self).line_spacing_view(),
            ),
    {
        let ghost m = font.metrics();
        let ghost base = self.objects@;
        let glyph_h = font.glyph_height();
        let sprite_h = sprite_height_for(glyph_h);
        let valid_widths = valid_widths_for_height(sprite_h);
        let max_sprite_w = valid_widths[valid_widths.len() - 1];
        let (wrap_px, word_wrap) = match format.overflow {
            TextOverflow::Wrap(w, ww) => (Some(w as u32), ww),
            _ => (None, false),
        };
        let cutoff_abs = match format.overflow {
            TextOverflow::Cutoff(w) => Some(pos.0 + w as i32),
            _ => None,
        };
        let ghost cutoff = format_cutoff(*format, pos);
        let ghost limit = sprite_limit(font);
        let spacing = self.letter_spacing;
        let line_spacing = self.line_spacing;
        let ghost all = visual_lines(m, text@, wrap_px, word_wrap, spacing as int);
        let ghost adv = font_advance(font, line_spacing);
        let overhang = font.right_overhang() as i32;
        let mut cursor_y = pos.1;
        let mut first_line = true;
        let mut longest: i32 = 0;
        let mut last_cx = pos.0;
        let mut lines = font.lines(text, wrap_px, word_wrap, spacing);
        let ghost mut done: Seq<(Seq<u8>, int)> = Seq::empty();
        let mut finished = false;
        proof {
            assert(all =~= done + visual_lines(m, lines.remaining_view(), wrap_px, word_wrap, spacing as int));
            assert(max_sprite_w == 32 || max_sprite_w == 64);
        }
        while !finished
            invariant
                sprite_font_ok(font),
                m == font.metrics(),
                adv == font_advance(font, line_spacing),
                1 <= adv <= 382,
                text.len() <= MAX_DRAW_LEN,
                -0x1000_0000 <= pos.0 < 0x1000_0000,
                -0x1000_0000 <= pos.1 < 0x1000_0000,
                cutoff == match cutoff_abs {
                    Some(cx) => Some(cx as int),
                    None => None,
                },
                sprite_h == sprite_height_spec(font.height_view()),
                valid_widths@ == valid_widths_spec(sprite_h),
                max_sprite_w == 32 || max_sprite_w == 64,
                limit == max_sprite_w - overhang,
                overhang == font.overhang_view(),
                spacing == self.letter_spacing,
                spacing == old(self).letter_spacing,
                line_spacing == self.line_spacing,
                line_spacing == old(self).line_spacing,
                lines.wf(),
                lines.font_view() == font,
                lines.metrics_view() == m,
                lines.wrap_view() == wrap_px,
                lines.word_wrap_view() == word_wrap,
                lines.spacing_view() == spacing,
                all == visual_lines(m, text@, wrap_px, word_wrap, spacing as int),
                all == done + visual_lines(m, lines.remaining_view(), wrap_px, word_wrap, spacing as int),
                done.len() + lines.remaining_view().len() <= text.len(),
                forall|i: int| 0 <= i < done.len() ==> 0 <= #[trigger] done[i].1 <= 382 * text.len(),
                first_line == (done.len() == 0),
                finished ==> lines.remaining_view().len() == 0,
                holds_runs(
                    self.objects@,
                    base,
                    font,
                    text_runs(m, done, pos.0 as int, pos.1 as int, format.align, spacing as int, adv, limit, cutoff),
                ),
                done.len() == 0 ==> cursor_y == pos.1 && longest == 0 && last_cx == pos.0,
                done.len() > 0 ==> (last_cx - pos.0, cursor_y - pos.1, longest as int) == sprite_layout_result(
                    m,
                    done,
                    pos.0 as int,
                    format.align,
                    spacing as int,
                    adv,
                    cutoff,
                ),
                0 <= longest <= 382 * text.len(),
                -0x1000_0000 - 256 <= last_cx <= 0x1000_0000 + 65536 + 382 * text.len(),
                done.len() > 0 ==> cursor_y == pos.1 + (done.len() - 1) * adv,
                pos.1 <= cursor_y <= pos.1 + 382 * text.len(),
            decreases lines.remaining_view().len() + if finished {
                0int
            } else {
                1int
            },
        {
            let ghost rem = lines.remaining_view();
            match lines.next() {
                None => {
                    finished = true;
                },
                Some((line, line_w)) => {
                    proof {
                        lemma_visual_lines_unfold(m, rem, wrap_px, word_wrap, spacing as int);
                        let k = done.len() as int;
                        assert(k * adv <= 382 * text.len()) by (nonlinear_arith)
                            requires
                                k < text.len(),
                                adv <= 382,
                                0 <= k,
                        ;
                        if k > 0 {
                            assert((k - 1) * adv + adv == k * adv) by (nonlinear_arith);
                        }
                    }
                    if !first_line {
                        cursor_y = cursor_y + font.line_advance(line_spacing) as i32;
                    }
                    first_line = false;
                    let ghost k = done.len();
                    proof {
                        assert(cursor_y == pos.1 + k * adv) by (nonlinear_arith)
                            requires
                                k == 0 ==> cursor_y == pos.1,
                                k > 0 ==> cursor_y == pos.1 + (k - 1) * adv + adv,
                        ;
                        assert(k * adv <= 382 * text.len()) by (nonlinear_arith)
                            requires
                                k < text.len(),
                                adv <= 382,
                                0 <= k,
                        ;
                        assert forall|j: int| 0 <= j < line@.len() implies m.covers(#[trigger] line@[j]) by {
                            assert(line@[j] == rem[j]);
                            assert(rem[j] != NEWLINE);
                        }
                        lemma_prefix_width_bounds(m, line@, spacing as int, line@.len() as int);
                    }
                    let ghost prev_runs = text_runs(
                        m,
                        done,
                        pos.0 as int,
                        pos.1 as int,
                        format.align,
                        spacing as int,
                        adv,
                        limit,
                        cutoff,
                    );
                    let line_start_x = pos.0 + x_offset(line_w, format.align);
                    let mut sprite_screen_x = line_start_x;
                    let mut sprite_content_w: i32 = 0;
                    let mut sprite_chars: Vec<(u8, u32)> = Vec::new();
                    let mut screen_x = line_start_x;
                    let mut n: usize = 0;
                    let mut stopped = false;
                    let ghost kd = drawn_count(m, line@, line_start_x as int, spacing as int, cutoff, 0);
                    while n < line.len() && !stopped
                        invariant
                            0 <= n <= line.len(),
                            sprite_font_ok(font),
                            m == font.metrics(),
                            forall|j: int| 0 <= j < line@.len() ==> m.covers(#[trigger] line@[j]),
                            line@.len() <= text.len(),
                            text.len() <= MAX_DRAW_LEN,
                            -0x1000_0000 <= cursor_y < 0x1000_0000 + 382 * MAX_DRAW_LEN,
                            -0x1000_0000 <= line_start_x <= 0x1000_0000 + 65535,
                            screen_x == line_start_x + m.prefix_width(line@, spacing as int, n as int),
                            cutoff == match cutoff_abs {
                                Some(cx) => Some(cx as int),
                                None => None,
                            },
                            -0x1000_0000 <= pos.0 < 0x1000_0000,
                            sprite_h == sprite_height_spec(font.height_view()),
                            valid_widths@ == valid_widths_spec(sprite_h),
                            max_sprite_w == 32 || max_sprite_w == 64,
                            limit == max_sprite_w - overhang,
                            overhang == font.overhang_view(),
                            spacing == self.letter_spacing,
                            line_spacing == self.line_spacing,
                            kd == drawn_count(m, line@, line_start_x as int, spacing as int, cutoff, 0),
                            !stopped ==> kd == drawn_count(m, line@, line_start_x as int, spacing as int, cutoff, n as int),
                            stopped ==> kd == n,
                            ({
                                let (closed, open) = pack_line(
                                    m,
                                    line@,
                                    line_start_x as int,
                                    cursor_y as int,
                                    spacing as int,
                                    limit,
                                    n as int,
                                );
                                &&& holds_runs(self.objects@, base, font, prev_runs + closed)
                                &&& sprite_screen_x == open.0
                                &&& open.1 == cursor_y
                                &&& sprite_chars@ == open.2
                                &&& sprite_content_w == open.3
                                &&& (n == 0 <==> open.2.len() == 0)
                            }),
                            0 <= sprite_content_w <= 255,
                            forall|j: int| 0 <= j < sprite_chars@.len() ==> m.covers(#[trigger] sprite_chars@[j].0),
                        decreases line.len() - n + if stopped {
                            0int
                        } else {
                            1int
                        },
                    {
                        let c = line[n];
                        proof {
                            lemma_prefix_width_bounds(m, line@, spacing as int, n as int);
                            lemma_prefix_width_bounds(m, line@, spacing as int, n + 1);
                            assert(m.covers(line@[n as int]));
                        }
                        let cw = font.char_width(c) as i32;
                        let gap = if n == 0 {
                            0
                        } else {
                            font.letter_gap(c, spacing)
                        };
                        let reach = match cutoff_abs {
                            Some(cx) => screen_x + gap >= cx,
                            None => false,
                        };
                        if reach {
                            stopped = true;
                        } else {
                            let ghost (closed, open) = pack_line(
                                m,
                                line@,
                                line_start_x as int,
                                cursor_y as int,
                                spacing as int,
                                limit,
                                n as int,
                            );
                            let ghost objs0 = self.objects@;
                            let offset = if sprite_chars.len() == 0 {
                                0
                            } else {
                                sprite_content_w + gap
                            };
                            if offset + cw + overhang > max_sprite_w as i32 {
                                if sprite_chars.len() > 0 {
                                    flush_sprite(
                                        &mut self.objects,
                                        sprite_chars.as_slice(),
                                        sprite_content_w as u32,
                                        sprite_screen_x,
                                        cursor_y,
                                        font,
                                        sprite_h,
                                        valid_widths,
                                    );
                                    proof {
                                        lemma_holds_push(objs0, self.objects@, base, font, prev_runs + closed, open);
                                        assert(prev_runs + closed.push(open) =~= (prev_runs + closed).push(open));
                                    }
                                }
                                sprite_screen_x = screen_x + gap;
                                sprite_chars.clear();
                                sprite_chars.push((c, 0));
                                sprite_content_w = cw;
                            } else {
                                let stored = if offset >= 0 {
                                    offset as u32
                                } else {
                                    (offset as i64 + 0x1_0000_0000i64) as u32
                                };
                                sprite_chars.push((c, stored));
                                sprite_content_w = offset + cw;
                            }
                            screen_x = screen_x + gap + cw;
                            n = n + 1;
                        }
                    }
                    let ghost objs1 = self.objects@;
                    let ghost (closed, open) = pack_line(
                        m,
                        line@,
                        line_start_x as int,
                        cursor_y as int,
                        spacing as int,
                        limit,
                        n as int,
                    );
                    proof {
                        if !stopped {
                            assert(n == line.len());
                        }
                        assert(n == kd);
                    }
                    if sprite_chars.len() > 0 {
                        flush_sprite(
                            &mut self.objects,
                            sprite_chars.as_slice(),
                            sprite_content_w as u32,
                            sprite_screen_x,
                            cursor_y,
                            font,
                            sprite_h,
                            valid_widths,
                        );
                        proof {
                            lemma_holds_push(objs1, self.objects@, base, font, prev_runs + closed, open);
                            assert(prev_runs + closed.push(open) =~= (prev_runs + closed).push(open));
                        }
                    }
                    proof {
                        let lr = line_runs(m, line@, line_start_x as int, cursor_y as int, spacing as int, limit, cutoff);
                        let done2 = done.push((line@, line_w as int));
                        assert(done2.drop_last() =~= done);
                        assert(text_runs(m, done2, pos.0 as int, pos.1 as int, format.align, spacing as int, adv, limit, cutoff)
                            == prev_runs + lr);
                        assert(all =~= done2 + visual_lines(m, lines.remaining_view(), wrap_px, word_wrap, spacing as int));
                        assert(max_line_width(done2) == if line_w > max_line_width(done) {
                            line_w as int
                        } else {
                            max_line_width(done)
                        });
                        lemma_prefix_width_bounds(m, line@, spacing as int, n as int);
                        done = done2;
                    }
                    if line_w as i32 > longest {
                        longest = line_w as i32;
                    }
                    last_cx = screen_x;
                },
            }
        }
        proof {
            assert(visual_lines(m, lines.remaining_view(), wrap_px, word_wrap, spacing as int) =~= Seq::empty());
            assert(all =~= done);
        }
        (last_cx - pos.0, cursor_y - pos.1, longest)
    }
}

} // verus!

use vstd::prelude::*;
use vstd::arithmetic::div_mod::{lemma_fundamental_div_mod, lemma_fundamental_div_mod_converse, lemma_mod_bound};
use crate::font::{size_spec, wrap_in_place_spec, lemma_wrap_in_place_only_breaks_spaces, AgbFont};
use crate::layout::{drawable, MAX_DRAW_LEN};
use crate::metrics::{GlyphMetrics, NEWLINE, SPACE};
use crate::text_format::{TextAlign, TextFormat, TextOverflow};
use crate::text_renderer::{
    char_draw_layout, char_draw_result, char_drawn_px, overflow_cutoff, widened_clear, TextRenderer,
};
use crate::renderer::in_rect;
use crate::tiles::{screen_px, tiles_kept, tiles_placed, tracks};
use crate::layout::glyphs_ink_tile;

verus! {

/// Whether `b` is one of `bytes`
pub fn contains_byte(bytes: &[u8], b: u8) -> (r: bool)
    ensures
        r == bytes@.contains(b),
{
    let mut i: usize = 0;
    while i < bytes.len()
        invariant
            0 <= i <= bytes.len(),
            forall|j: int| 0 <= j < i ==> #[trigger] bytes@[j] != b,
        decreases bytes.len() - i,
    {
        if bytes[i] == b {
            assert(bytes@[i as int] == b);
            return true;
        }
        i = i + 1;
    }
    false
}

/// How many bytes one reveal uncovers from `from`: up to `per_update` of
/// them, stopping just after a punctuation byte when pauses are on.
pub open spec fn reveal_count(text: Seq<u8>, from: int, per_update: int, pause_frames: u8, punct: Seq<u8>) -> int
    decreases per_update,
{
    if per_update <= 0 || from < 0 || from >= text.len() {
        0
    } else if pause_frames > 0 && punct.contains(text[from]) {
        1
    } else {
        1 + reveal_count(text, from + 1, per_update - 1, pause_frames, punct)
    }
}

/// One frame of revealing: `(revealed, frame counter, pause left, newly
/// revealed)` after it. Nothing happens once everything is revealed; a
/// pending pause uses the frame up; otherwise the counter advances and every
/// `frames_per_update` frames `reveal_count` bytes are revealed, a pause
/// starting after a punctuation byte.
pub open spec fn reveal_step(
    text: Seq<u8>,
    revealed: int,
    counter: u8,
    pause: u8,
    frames_per_update: u8,
    chars_per_update: u8,
    pause_frames: u8,
    punct: Seq<u8>,
) -> (int, u8, u8, int) {
    if revealed >= text.len() {
        (revealed, counter, pause, 0)
    } else if pause > 0 {
        (revealed, counter, (pause - 1) as u8, 0)
    } else if counter + 1 < frames_per_update {
        (revealed, (counter + 1) as u8, pause, 0)
    } else {
        let n = reveal_count(text, revealed, chars_per_update as int, pause_frames, punct);
        let stopped = n > 0 && pause_frames > 0 && punct.contains(text[revealed + n - 1]);
        (revealed + n, 0u8, if stopped {
            pause_frames
        } else {
            pause
        }, n)
    }
}

proof fn lemma_reveal_count_bounds(text: Seq<u8>, from: int, per_update: int, pause_frames: u8, punct: Seq<u8>)
    requires
        0 <= from <= text.len(),
    ensures
        0 <= reveal_count(text, from, per_update, pause_frames, punct) <= text.len() - from,
        per_update > 0 && from < text.len() ==> reveal_count(text, from, per_update, pause_frames, punct) >= 1,
    decreases per_update,
{
    if per_update > 0 && from < text.len() && !(pause_frames > 0 && punct.contains(text[from])) {
        lemma_reveal_count_bounds(text, from + 1, per_update - 1, pause_frames, punct);
    }
}

/// Advances a reveal by one frame (see `reveal_step`); returns the number of
/// bytes newly revealed
pub fn reveal_update(
    text: &[u8],
    chars_revealed: &mut usize,
    frame_counter: &mut u8,
    pause_remaining: &mut u8,
    frames_per_update: u8,
    chars_per_update: u8,
    pause_frames: u8,
    punct: &[u8],
) -> (r: usize)
    requires
        *old(chars_revealed) <= text.len(),
        *old(frame_counter) < frames_per_update,
    ensures
        (*final(chars_revealed) as int, *final(frame_counter), *final(pause_remaining), r as int) == reveal_step(
            text@,
            *old(chars_revealed) as int,
            *old(frame_counter),
            *old(pause_remaining),
            frames_per_update,
            chars_per_update,
            pause_frames,
            punct@,
        ),
        *final(chars_revealed) <= text.len(),
        *final(frame_counter) < frames_per_update,
{
    if *chars_revealed >= text.len() {
        return 0;
    }
    if *pause_remaining > 0 {
        *pause_remaining = *pause_remaining - 1;
        return 0;
    }
    *frame_counter = *frame_counter + 1;
    if *frame_counter < frames_per_update {
        return 0;
    }
    *frame_counter = 0;
    let ghost from = *chars_revealed as int;
    let ghost pause0 = *pause_remaining;
    let mut revealed: usize = 0;
    let mut stopped = false;
    proof {
        lemma_reveal_count_bounds(text@, from, chars_per_update as int, pause_frames, punct@);
    }
    while !stopped && revealed < chars_per_update as usize && *chars_revealed < text.len()
        invariant
            *chars_revealed == from + revealed,
            *chars_revealed <= text.len(),
            0 <= from <= text.len(),
            revealed <= chars_per_update,
            stopped ==> revealed > 0 && pause_frames > 0 && punct@.contains(text@[from + revealed - 1]),
            stopped ==> reveal_count(text@, from, chars_per_update as int, pause_frames, punct@) == revealed,
            !stopped ==> reveal_count(text@, from, chars_per_update as int, pause_frames, punct@) == revealed
                + reveal_count(text@, from + revealed, chars_per_update - revealed, pause_frames, punct@),
            !stopped ==> *pause_remaining == pause0,
            stopped ==> *pause_remaining == pause_frames,
            pause0 == 0,
            revealed > 0 && !stopped ==> !(pause_frames > 0 && punct@.contains(text@[from + revealed - 1])),
        decreases chars_per_update - revealed + if stopped { 0int } else { 1int },
    {
        let c = text[*chars_revealed];
        *chars_revealed = *chars_revealed + 1;
        revealed = revealed + 1;
        if pause_frames > 0 && contains_byte(punct, c) {
            *pause_remaining = pause_frames;
            stopped = true;
        }
    }
    revealed
}

/// The stored rate clamped to at least 1.
pub open spec fn at_least_one(v: u8) -> u8 {
    if v == 0 {
        1
    } else {
        v
    }
}

/// Wraps a [`TextRenderer`] to reveal text one chunk at a time, like a
/// typewriter
pub struct TypewriterRenderer {
    renderer: TextRenderer,
    text: Vec<u8>,
    chars_revealed: usize,
    last_drawn: usize,
    frame_counter: u8,
    frames_per_update: u8,
    chars_per_update: u8,
    start: (i32, i32),
    cursor: (i32, i32),
    overflow: TextOverflow,
    alignment: TextAlign,
    line_width: i32,
    text_wrapped: bool,
    /// Extra frames to hold after revealing any byte in `punctuation_chars`
    /// (default 0 = no pause)
    pub punctuation_pause_frames: u8,
    /// Bytes that trigger the punctuation pause (default `b".!?"`)
    pub punctuation_chars: &'static [u8],
    pause_remaining: u8,
}

impl TypewriterRenderer {
    /// The loaded text, as wrapped so far.
    pub closed spec fn text_view(&self) -> Seq<u8> {
        self.text@
    }

    /// Number of bytes revealed.
    pub closed spec fn revealed_view(&self) -> int {
        self.chars_revealed as int
    }

    /// Number of bytes drawn.
    pub closed spec fn drawn_view(&self) -> int {
        self.last_drawn as int
    }

    /// Frames since the last reveal.
    pub closed spec fn counter_view(&self) -> u8 {
        self.frame_counter
    }

    /// Frames between reveals.
    pub closed spec fn frames_view(&self) -> u8 {
        self.frames_per_update
    }

    /// Bytes per reveal.
    pub closed spec fn chars_view(&self) -> u8 {
        self.chars_per_update
    }

    /// Where the text starts.
    pub closed spec fn start_view(&self) -> (i32, i32) {
        self.start
    }

    /// Where the next glyph goes (left alignment).
    pub closed spec fn cursor_view(&self) -> (i32, i32) {
        self.cursor
    }

    /// Overflow handling of the text.
    pub closed spec fn overflow_view(&self) -> TextOverflow {
        self.overflow
    }

    /// Alignment of the text.
    pub closed spec fn align_view(&self) -> TextAlign {
        self.alignment
    }

    /// Pixels used on the current line (left alignment).
    pub closed spec fn line_width_view(&self) -> i32 {
        self.line_width
    }

    /// Whether the text has been word-wrapped in place.
    pub closed spec fn wrapped_view(&self) -> bool {
        self.text_wrapped
    }

    /// Frames of pause left.
    pub closed spec fn pause_view(&self) -> u8 {
        self.pause_remaining
    }

    /// Pause after punctuation.
    pub closed spec fn pause_frames_view(&self) -> u8 {
        self.punctuation_pause_frames
    }

    /// Punctuation bytes.
    pub closed spec fn punct_view(&self) -> Seq<u8> {
        self.punctuation_chars@
    }

    /// The inner renderer.
    pub closed spec fn renderer_view(&self) -> TextRenderer {
        self.renderer
    }

    /// Counters and positions stay in range: revealed within the text, drawn
    /// within revealed, the frame counter below the rate, the cursor within
    /// reach of the start and the line width its distance from it.
    pub closed spec fn wf(&self) -> bool {
        &&& self.renderer.wf()
        &&& self.text@.len() <= MAX_DRAW_LEN
        &&& self.last_drawn <= self.chars_revealed <= self.text@.len()
        &&& self.frame_counter < self.frames_per_update
        &&& self.chars_per_update >= 1
        &&& -0x0400_0000 <= self.start.0 < 0x0400_0000
        &&& -0x0400_0000 <= self.start.1 < 0x0400_0000
        &&& self.start.0 - 383 * self.last_drawn <= self.cursor.0 <= self.start.0 + 383 * self.last_drawn
        &&& self.start.1 <= self.cursor.1 <= self.start.1 + 382 * self.last_drawn
        &&& self.line_width == self.cursor.0 - self.start.0
    }

    /// A typewriter revealing `chars_per_update` bytes every
    /// `frames_per_update` frames (both at least 1) with the format's
    /// overflow and alignment
    pub fn new(chars_per_update: u8, frames_per_update: u8, format: &TextFormat) -> (r: Self)
        ensures
            r.wf(),
            r.text_view().len() == 0,
            r.revealed_view() == 0,
            r.drawn_view() == 0,
            r.counter_view() == 0,
            r.chars_view() == at_least_one(chars_per_update),
            r.frames_view() == at_least_one(frames_per_update),
            r.overflow_view() == format.overflow,
            r.align_view() == format.align,
            r.pause_frames_view() == 0,
            r.punct_view() == seq![46u8, 33u8, 63u8],
            r.pause_view() == 0,
            !r.wrapped_view(),
            r.renderer_view().tiles_view().len() == 0,
            r.renderer_view().letter_spacing == 1,
            r.renderer_view().line_spacing == 0,
    {
        let punct: &'static [u8] = &[46u8, 33u8, 63u8];
        assert(punct@ =~= seq![46u8, 33u8, 63u8]);
        TypewriterRenderer {
            renderer: TextRenderer::default(),
            text: Vec::new(),
            chars_revealed: 0,
            last_drawn: 0,
            frame_counter: 0,
            frames_per_update: if frames_per_update == 0 { 1 } else { frames_per_update },
            chars_per_update: if chars_per_update == 0 { 1 } else { chars_per_update },
            start: (0, 0),
            cursor: (0, 0),
            overflow: format.overflow,
            alignment: format.align,
            line_width: 0,
            text_wrapped: false,
            punctuation_pause_frames: 0,
            punctuation_chars: punct,
            pause_remaining: 0,
        }
    }
}

/// The text a typewriter draws: word-wrapped in place the first time it
/// draws when its overflow wraps at words.
pub open spec fn wrapped_text(m: GlyphMetrics, text: Seq<u8>, wrapped: bool, overflow: TextOverflow, spacing: i8) -> Seq<u8> {
    match overflow {
        TextOverflow::Wrap(w, true) => if !wrapped {
            wrap_in_place_spec(m, text, w as int, spacing as int)
        } else {
            text
        },
        _ => text,
    }
}

/// Column width of a centred or right-aligned text, 0 when left aligned.
pub open spec fn column_width(align: TextAlign) -> int {
    match align {
        TextAlign::Center(w) => w as int,
        TextAlign::Right(w) => w as int,
        TextAlign::Left => 0,
    }
}

/// Wrap width of an overflow setting, as `size_of` takes it.
pub open spec fn size_wrap(overflow: TextOverflow) -> Option<u32> {
    match overflow {
        TextOverflow::Wrap(w, _) => Some(w as u32),
        _ => None,
    }
}

/// Wrapping in place keeps every byte that is not a line feed covered.
pub proof fn lemma_wrapped_covered(m: GlyphMetrics, text: Seq<u8>, wrapped: bool, overflow: TextOverflow, spacing: i8)
    requires
        m.covers_text(text),
    ensures
        m.covers_text(wrapped_text(m, text, wrapped, overflow, spacing)),
        wrapped_text(m, text, wrapped, overflow, spacing).len() == text.len(),
{
    if let TextOverflow::Wrap(w, true) = overflow {
        lemma_wrap_in_place_only_breaks_spaces(m, text, w as int, spacing as int, 0, 0);
        let t2 = wrapped_text(m, text, wrapped, overflow, spacing);
        assert forall|i: int| 0 <= i < t2.len() && t2[i] != NEWLINE implies #[trigger] m.covers(t2[i]) by {
            assert(t2[i] == text[i] || (text[i] == SPACE && t2[i] == NEWLINE));
        }
    }
}

/// A part of covered text is covered.
pub proof fn lemma_subrange_covered(m: GlyphMetrics, text: Seq<u8>, a: int, b: int)
    requires
        m.covers_text(text),
        0 <= a <= b <= text.len(),
    ensures
        m.covers_text(text.subrange(a, b)),
{
    assert forall|i: int| 0 <= i < text.subrange(a, b).len() && text.subrange(a, b)[i] != NEWLINE implies #[trigger] m.covers(
        text.subrange(a, b)[i],
    ) by {
        assert(text.subrange(a, b)[i] == text[a + i]);
    }
}

impl TypewriterRenderer {
    /// Load new text and reset all state; the tiles are not cleared
    pub fn load_text(&mut self, text: &[u8], pos: (i32, i32))
        requires
            old(self).wf(),
            text.len() <= MAX_DRAW_LEN,
            -0x0400_0000 <= pos.0 < 0x0400_0000,
            -0x0400_0000 <= pos.1 < 0x0400_0000,
        ensures
            final(self).wf(),
            final(self).text_view() == text@,
            final(self).revealed_view() == 0,
            final(self).drawn_view() == 0,
            final(self).counter_view() == 0,
            final(self).start_view() == pos,
            final(self).cursor_view() == pos,
            final(self).line_width_view() == 0,
            !final(self).wrapped_view(),
            final(self).pause_view() == 0,
            final(self).frames_view() == old(self).frames_view(),
            final(self).chars_view() == old(self).chars_view(),
            final(self).overflow_view() == old(self).overflow_view(),
            final(self).align_view() == old(self).align_view(),
            final(self).pause_frames_view() == old(self).pause_frames_view(),
            final(self).punct_view() == old(self).punct_view(),
            final(self).renderer_view() == old(self).renderer_view(),
    {
        self.text.clear();
        let mut i: usize = 0;
        while i < text.len()
            invariant
                0 <= i <= text.len(),
                self.text@ == text@.subrange(0, i as int),
                self.renderer == old(self).renderer,
                self.frame_counter == old(self).frame_counter,
                self.frames_per_update == old(self).frames_per_update,
                self.chars_per_update == old(self).chars_per_update,
                self.overflow == old(self).overflow,
                self.alignment == old(self).alignment,
                self.punctuation_pause_frames == old(self).punctuation_pause_frames,
                self.punctuation_chars == old(self).punctuation_chars,
            decreases text.len() - i,
        {
            self.text.push(text[i]);
            i = i + 1;
            assert(self.text@ =~= text@.subrange(0, i as int));
        }
        assert(text@.subrange(0, text.len() as int) =~= text@);
        self.chars_revealed = 0;
        self.last_drawn = 0;
        self.frame_counter = 0;
        self.start = pos;
        self.cursor = pos;
        self.line_width = 0;
        self.text_wrapped = false;
        self.pause_remaining = 0;
    }

    /// Advance the frame counter by one and reveal any characters that are
    /// due (see `reveal_step`); returns the number of bytes newly revealed
    pub fn update(&mut self) -> (r: usize)
        requires
            old(self).wf(),
        ensures
            final(self).wf(),
            (final(self).revealed_view(), final(self).counter_view(), final(self).pause_view(), r as int)
                == reveal_step(
                old(self).text_view(),
                old(self).revealed_view(),
                old(self).counter_view(),
                old(self).pause_view(),
                old(self).frames_view(),
                old(self).chars_view(),
                old(self).pause_frames_view(),
                old(self).punct_view(),
            ),
            final(self).text_view() == old(self).text_view(),
            final(self).drawn_view() == old(self).drawn_view(),
            final(self).frames_view() == old(self).frames_view(),
            final(self).chars_view() == old(self).chars_view(),
            final(self).start_view() == old(self).start_view(),
            final(self).cursor_view() == old(self).cursor_view(),
            final(self).line_width_view() == old(self).line_width_view(),
            final(self).wrapped_view() == old(self).wrapped_view(),
            final(self).overflow_view() == old(self).overflow_view(),
            final(self).align_view() == old(self).align_view(),
            final(self).pause_frames_view() == old(self).pause_frames_view(),
            final(self).punct_view() == old(self).punct_view(),
            final(self).renderer_view() == old(self).renderer_view(),
    {
        reveal_update(
            self.text.as_slice(),
            &mut self.chars_revealed,
            &mut self.frame_counter,
            &mut self.pause_remaining,
            self.frames_per_update,
            self.chars_per_update,
            self.punctuation_pause_frames,
            self.punctuation_chars,
        )
    }

    /// Immediately reveal all characters; the next `draw` flushes them
    pub fn complete(&mut self)
        requires
            old(self).wf(),
        ensures
            final(self).wf(),
            final(self).revealed_view() == old(self).text_view().len(),
            final(self).pause_view() == 0,
            final(self).text_view() == old(self).text_view(),
            final(self).drawn_view() == old(self).drawn_view(),
            final(self).counter_view() == old(self).counter_view(),
            final(self).cursor_view() == old(self).cursor_view(),
            final(self).renderer_view() == old(self).renderer_view(),
    {
        self.chars_revealed = self.text.len();
        self.pause_remaining = 0;
    }

    /// Whether every byte has been revealed
    pub fn is_complete(&self) -> (r: bool)
        requires
            self.wf(),
        ensures
            r == (self.revealed_view() >= self.text_view().len()),
    {
        self.chars_revealed >= self.text.len()
    }

    /// Pixel position where the next character will be drawn (left
    /// alignment; otherwise the start position)
    pub fn cursor(&self) -> (r: (i32, i32))
        ensures
            r == self.cursor_view(),
    {
        self.cursor
    }

    /// Number of bytes revealed so far
    pub fn chars_revealed(&self) -> (r: usize)
        ensures
            r == self.revealed_view(),
    {
        self.chars_revealed
    }
}

impl TypewriterRenderer {
    /// Blit any characters revealed since the last draw. Left-aligned text
    /// draws only the new characters from the cursor; centred or
    /// right-aligned text redraws the whole revealed part from the start,
    /// clearing its column first. The first draw word-wraps the text in
    /// place when its overflow wraps at words. `palette_id` is the palette
    /// newly placed tiles are shown with
    pub fn draw<T: AgbFont>(&mut self, font: &T, palette_id: u8)
        requires
            old(self).wf(),
            drawable(font),
            font.metrics().covers_text(old(self).text_view()),
        ensures
            final(self).wf(),
            old(self).drawn_view() >= old(self).revealed_view() ==> *final(self) == *old(self),
            old(self).drawn_view() < old(self).revealed_view() ==> ({
                let spacing = old(self).renderer_view().letter_spacing;
                let line_spacing = old(self).renderer_view().line_spacing;
                let t = wrapped_text(font.metrics(), old(self).text_view(), old(self).wrapped_view(), old(self).overflow_view(), spacing);
                let before = old(self).renderer_view().tiles_view();
                let after = final(self).renderer_view().tiles_view();
                &&& final(self).text_view() == t
                &&& final(self).wrapped_view()
                &&& final(self).drawn_view() == old(self).revealed_view()
                &&& final(self).revealed_view() == old(self).revealed_view()
                &&& final(self).counter_view() == old(self).counter_view()
                &&& final(self).frames_view() == old(self).frames_view()
                &&& final(self).chars_view() == old(self).chars_view()
                &&& final(self).start_view() == old(self).start_view()
                &&& final(self).overflow_view() == old(self).overflow_view()
                &&& final(self).align_view() == old(self).align_view()
                &&& final(self).pause_view() == old(self).pause_view()
                &&& final(self).pause_frames_view() == old(self).pause_frames_view()
                &&& final(self).punct_view() == old(self).punct_view()
                &&& final(self).renderer_view().letter_spacing == spacing
                &&& final(self).renderer_view().line_spacing == line_spacing
                &&& final(self).renderer_view().palette_id == old(self).renderer_view().palette_id
                &&& tiles_placed(before, after, palette_id)
                &&& old(self).align_view() is Left ==> {
                    let layout = char_draw_layout(
                        font,
                        t.subrange(old(self).drawn_view(), old(self).revealed_view()),
                        old(self).cursor_view(),
                        old(self).overflow_view(),
                        TextAlign::Left,
                        old(self).line_width_view(),
                        old(self).start_view().0,
                        spacing,
                        line_spacing,
                    );
                    let res = char_draw_result(layout, old(self).cursor_view());
                    &&& final(self).cursor_view().0 == old(self).cursor_view().0 + res.0
                    &&& final(self).cursor_view().1 == old(self).cursor_view().1 + res.1
                    &&& final(self).line_width_view() == old(self).line_width_view() + res.0
                    &&& forall|tx: int, ty: int|
                        #[trigger] tracks(after, tx, ty) <==> tracks(before, tx, ty) || glyphs_ink_tile(
                            font,
                            layout.4,
                            overflow_cutoff(old(self).overflow_view(), old(self).start_view().0),
                            tx,
                            ty,
                        )
                    &&& forall|x: int, y: int|
                        #[trigger] screen_px(after, x, y) == char_drawn_px(
                            font,
                            before,
                            layout.4,
                            overflow_cutoff(old(self).overflow_view(), old(self).start_view().0),
                            old(self).cursor_view(),
                            (0i32, 0i32),
                            x,
                            y,
                        )
                }
                &&& !(old(self).align_view() is Left) ==> {
                    let layout = char_draw_layout(
                        font,
                        t.take(old(self).revealed_view()),
                        old(self).start_view(),
                        old(self).overflow_view(),
                        old(self).align_view(),
                        0i32,
                        old(self).start_view().0,
                        spacing,
                        line_spacing,
                    );
                    let h = size_spec(
                        font.metrics(),
                        font.height_view() as int,
                        t,
                        size_wrap(old(self).overflow_view()),
                        spacing as int,
                        line_spacing as int,
                    ).1;
                    &&& final(self).cursor_view() == old(self).cursor_view()
                    &&& final(self).line_width_view() == old(self).line_width_view()
                    &&& forall|tx: int, ty: int|
                        #[trigger] tracks(after, tx, ty) <==> tracks(before, tx, ty) || glyphs_ink_tile(
                            font,
                            layout.4,
                            overflow_cutoff(old(self).overflow_view(), old(self).start_view().0),
                            tx,
                            ty,
                        )
                    &&& forall|x: int, y: int|
                        #[trigger] screen_px(after, x, y) == char_drawn_px(
                            font,
                            before,
                            layout.4,
                            overflow_cutoff(old(self).overflow_view(), old(self).start_view().0),
                            old(self).start_view(),
                            widened_clear(font, (column_width(old(self).align_view()) as i32, h as i32)),
                            x,
                            y,
                        )
                }
            }),
    {
        if self.last_drawn >= self.chars_revealed {
            return ;
        }
        let spacing = self.renderer.letter_spacing;
        let ghost m = font.metrics();
        proof {
            lemma_wrapped_covered(m, self.text@, self.text_wrapped, self.overflow, spacing);
        }
        if !self.text_wrapped {
            if let TextOverflow::Wrap(w, true) = self.overflow {
                font.word_wrap_in_place(self.text.as_mut_slice(), w as u32, spacing);
            }
            self.text_wrapped = true;
        }
        let ghost t = self.text@;
        if self.alignment == TextAlign::Left {
            let last = self.last_drawn;
            let rev = self.chars_revealed;
            proof {
                lemma_subrange_covered(m, t, last as int, rev as int);
                assert(self.text@.subrange(last as int, rev as int).len() <= MAX_DRAW_LEN);
            }
            let (cx, cy, _) = self.renderer.int_draw_text(
                &self.text.as_slice()[last..rev],
                font,
                self.cursor,
                self.overflow,
                TextAlign::Left,
                palette_id,
                (0, 0),
                self.line_width,
                self.start.0,
            );
            self.cursor = (self.cursor.0 + cx, self.cursor.1 + cy);
            self.line_width = self.line_width + cx;
        } else {
            let column_w: u16 = match self.alignment {
                TextAlign::Center(w) => w,
                TextAlign::Right(w) => w,
                TextAlign::Left => 0,
            };
            let wrap32: Option<u32> = match self.overflow {
                TextOverflow::Wrap(w, _) => Some(w as u32),
                _ => None,
            };
            let (_, h) = font.size_of(self.text.as_slice(), wrap32, spacing, self.renderer.line_spacing);
            let rev = self.chars_revealed;
            proof {
                lemma_subrange_covered(m, t, 0, rev as int);
                assert(t.subrange(0, rev as int) =~= t.take(rev as int));
            }
            self.renderer.int_draw_text(
                &self.text.as_slice()[0..rev],
                font,
                self.start,
                self.overflow,
                self.alignment,
                palette_id,
                (column_w as i32, h as i32),
                0,
                self.start.0,
            );
        }
        self.last_drawn = self.chars_revealed;
    }
}

/// The rectangle a typewriter's text may cover: the measured size (the
/// wrap or cutoff width when there is one), at least the column when centred
/// or right-aligned, widened by the font's overhang.
pub open spec fn text_clear_size(
    m: GlyphMetrics,
    height: int,
    overhang: int,
    text: Seq<u8>,
    overflow: TextOverflow,
    align: TextAlign,
    spacing: int,
    line_spacing: int,
) -> (int, int) {
    let (w, h) = match overflow {
        TextOverflow::Nothing => size_spec(m, height, text, None, spacing, line_spacing),
        TextOverflow::Wrap(ow, _) => (ow as int, size_spec(m, height, text, Some(ow as u32), spacing, line_spacing).1),
        TextOverflow::Cutoff(ow) => (ow as int, size_spec(m, height, text, None, spacing, line_spacing).1),
    };
    let w2 = match align {
        TextAlign::Left => w,
        TextAlign::Center(cw) => if w > cw {
            w
        } else {
            cw as int
        },
        TextAlign::Right(cw) => if w > cw {
            w
        } else {
            cw as int
        },
    };
    (w2 + overhang, h)
}

/// Clears the pixels of the rectangle the current text may cover (see
/// `text_clear_size`); nothing for an empty text
pub fn clear_text_rect<T: AgbFont>(
    renderer: &mut TextRenderer,
    font: &T,
    text: &[u8],
    start: (i32, i32),
    overflow: TextOverflow,
    align: TextAlign,
)
    requires
        old(renderer).wf(),
        drawable(font),
        font.metrics().covers_text(text@),
        text.len() <= MAX_DRAW_LEN,
        -0x1000_0000 <= start.0 < 0x1000_0000,
        -0x1000_0000 <= start.1 < 0x1000_0000,
    ensures
        final(renderer).wf(),
        final(renderer).palette_id == old(renderer).palette_id,
        final(renderer).letter_spacing == old(renderer).letter_spacing,
        final(renderer).line_spacing == old(renderer).line_spacing,
        tiles_kept(old(renderer).tiles_view(), final(renderer).tiles_view()),
        text.len() == 0 ==> final(renderer).tiles_view() == old(renderer).tiles_view(),
        text.len() > 0 ==> forall|x: int, y: int|
            #[trigger] screen_px(final(renderer).tiles_view(), x, y) == ({
                let (w, h) = text_clear_size(
                    font.metrics(),
                    font.height_view() as int,
                    font.overhang_view() as int,
                    text@,
                    overflow,
                    align,
                    old(renderer).letter_spacing as int,
                    old(renderer).line_spacing as int,
                );
                if in_rect(start, (w as i32, h as i32), x, y) {
                    0
                } else {
                    screen_px(old(renderer).tiles_view(), x, y)
                }
            }),
{
    if text.len() == 0 {
        return ;
    }
    let spacing = renderer.letter_spacing;
    let line_spacing = renderer.line_spacing;
    let (w, h): (i32, i32) = match overflow {
        TextOverflow::Nothing => {
            let (tw, th) = font.size_of(text, None, spacing, line_spacing);
            (tw as i32, th as i32)
        },
        TextOverflow::Wrap(ow, _) => {
            let (_, th) = font.size_of(text, Some(ow as u32), spacing, line_spacing);
            (ow as i32, th as i32)
        },
        TextOverflow::Cutoff(ow) => {
            let (_, th) = font.size_of(text, None, spacing, line_spacing);
            (ow as i32, th as i32)
        },
    };
    let w = match align {
        TextAlign::Left => w,
        TextAlign::Center(cw) => if w > cw as i32 { w } else { cw as i32 },
        TextAlign::Right(cw) => if w > cw as i32 { w } else { cw as i32 },
    };
    let w = w + font.right_overhang() as i32;
    renderer.clear_pixel_rect(start, w, h);
}

impl TypewriterRenderer {
    /// Clear the pixel region the current text may cover (see
    /// `text_clear_size`)
    pub fn clear<T: AgbFont>(&mut self, font: &T)
        requires
            old(self).wf(),
            drawable(font),
            font.metrics().covers_text(old(self).text_view()),
        ensures
            final(self).wf(),
            final(self).text_view() == old(self).text_view(),
            final(self).revealed_view() == old(self).revealed_view(),
            final(self).drawn_view() == old(self).drawn_view(),
            final(self).cursor_view() == old(self).cursor_view(),
            final(self).start_view() == old(self).start_view(),
            final(self).counter_view() == old(self).counter_view(),
            final(self).frames_view() == old(self).frames_view(),
            final(self).chars_view() == old(self).chars_view(),
            final(self).pause_view() == old(self).pause_view(),
            final(self).pause_frames_view() == old(self).pause_frames_view(),
            final(self).punct_view() == old(self).punct_view(),
            final(self).overflow_view() == old(self).overflow_view(),
            final(self).align_view() == old(self).align_view(),
            final(self).wrapped_view() == old(self).wrapped_view(),
            final(self).line_width_view() == old(self).line_width_view(),
            final(self).renderer_view().letter_spacing == old(self).renderer_view().letter_spacing,
            final(self).renderer_view().line_spacing == old(self).renderer_view().line_spacing,
            final(self).renderer_view().palette_id == old(self).renderer_view().palette_id,
            tiles_kept(old(self).renderer_view().tiles_view(), final(self).renderer_view().tiles_view()),
            old(self).text_view().len() == 0 ==> final(self).renderer_view() == old(self).renderer_view(),
            old(self).text_view().len() > 0 ==> forall|x: int, y: int|
                #[trigger] screen_px(final(self).renderer_view().tiles_view(), x, y) == ({
                    let (w, h) = text_clear_size(
                        font.metrics(),
                        font.height_view() as int,
                        font.overhang_view() as int,
                        old(self).text_view(),
                        old(self).overflow_view(),
                        old(self).align_view(),
                        old(self).renderer_view().letter_spacing as int,
                        old(self).renderer_view().line_spacing as int,
                    );
                    if in_rect(old(self).start_view(), (w as i32, h as i32), x, y) {
                        0
                    } else {
                        screen_px(old(self).renderer_view().tiles_view(), x, y)
                    }
                }),
    {
        if self.text.len() == 0 {
            return ;
        }
        clear_text_rect(&mut self.renderer, font, self.text.as_slice(), self.start, self.overflow, self.alignment);
    }

    /// The inner renderer, e.g. to clear a custom rectangle
    pub fn renderer_mut(&mut self) -> (r: &mut TextRenderer)
        requires
            old(self).wf(),
        ensures
            *r == old(self).renderer_view(),
            final(self).renderer_view() == *final(r),
            final(self).text_view() == old(self).text_view(),
            final(self).revealed_view() == old(self).revealed_view(),
            final(self).drawn_view() == old(self).drawn_view(),
            final(self).cursor_view() == old(self).cursor_view(),
            final(self).start_view() == old(self).start_view(),
            final(r).wf() ==> final(self).wf(),
    {
        &mut self.renderer
    }
}

/// One frame of revealing keeps the counters in range: at most the rate is
/// revealed, never past the text, and the frame counter stays below the
/// frame rate.
pub proof fn lemma_reveal_step_props(
    text: Seq<u8>,
    revealed: int,
    counter: u8,
    pause: u8,
    frames_per_update: u8,
    chars_per_update: u8,
    pause_frames: u8,
    punct: Seq<u8>,
)
    requires
        0 <= revealed <= text.len(),
        counter < frames_per_update,
    ensures
        ({
            let (r2, c2, _, n) = reveal_step(text, revealed, counter, pause, frames_per_update, chars_per_update, pause_frames, punct);
            &&& revealed <= r2 <= text.len()
            &&& r2 == revealed + n
            &&& 0 <= n <= chars_per_update
            &&& c2 < frames_per_update
        }),
{
    if revealed < text.len() && pause == 0 && counter + 1 >= frames_per_update {
        lemma_reveal_count_bounds(text, revealed, chars_per_update as int, pause_frames, punct);
        lemma_reveal_count_at_most(text, revealed, chars_per_update as int, pause_frames, punct);
    }
}

proof fn lemma_reveal_count_at_most(text: Seq<u8>, from: int, per_update: int, pause_frames: u8, punct: Seq<u8>)
    ensures
        reveal_count(text, from, per_update, pause_frames, punct) <= if per_update < 0 { 0 } else { per_update },
    decreases per_update,
{
    if per_update > 0 && from >= 0 && from < text.len() && !(pause_frames > 0 && punct.contains(text[from])) {
        lemma_reveal_count_at_most(text, from + 1, per_update - 1, pause_frames, punct);
    }
}

/// `(revealed, frame counter, pause left)` after `k` frames of revealing
/// (see `reveal_step`).
pub open spec fn reveal_steps(
    text: Seq<u8>,
    revealed: int,
    counter: u8,
    pause: u8,
    frames_per_update: u8,
    chars_per_update: u8,
    pause_frames: u8,
    punct: Seq<u8>,
    k: nat,
) -> (int, u8, u8)
    decreases k,
{
    if k == 0 {
        (revealed, counter, pause)
    } else {
        let (r, c, p) = reveal_steps(
            text,
            revealed,
            counter,
            pause,
            frames_per_update,
            chars_per_update,
            pause_frames,
            punct,
            (k - 1) as nat,
        );
        let (r2, c2, p2, _) = reveal_step(text, r, c, p, frames_per_update, chars_per_update, pause_frames, punct);
        (r2, c2, p2)
    }
}

proof fn lemma_reveal_count_no_pause(text: Seq<u8>, from: int, per_update: int, punct: Seq<u8>)
    requires
        0 <= from <= text.len(),
        0 <= per_update,
    ensures
        reveal_count(text, from, per_update, 0, punct) == if per_update < text.len() - from {
            per_update
        } else {
            text.len() - from
        },
    decreases per_update,
{
    if per_update > 0 && from < text.len() {
        lemma_reveal_count_no_pause(text, from + 1, per_update - 1, punct);
    }
}

/// Without punctuation pauses, a freshly loaded text is revealed
/// `chars_per_update` bytes every `frames_per_update` frames: after `k`
/// frames, `(k / frames_per_update) * chars_per_update` bytes, all of the text
/// once that reaches its length (rates of at least 1, as the renderer clamps
/// them).
pub proof fn law_updates_reveal_at_the_rate(
    text: Seq<u8>,
    frames_per_update: u8,
    chars_per_update: u8,
    punct: Seq<u8>,
    k: nat,
)
    requires
        frames_per_update >= 1,
        chars_per_update >= 1,
    ensures
        ({
            let due = (k / (frames_per_update as nat)) * (chars_per_update as nat);
            let r = reveal_steps(text, 0, 0u8, 0u8, frames_per_update, chars_per_update, 0u8, punct, k);
            &&& r.0 == if due < text.len() {
                due as int
            } else {
                text.len() as int
            }
            &&& r.2 == 0
            &&& due < text.len() ==> r.1 == k % (frames_per_update as nat)
        }),
    decreases k,
{
    let f = frames_per_update as nat;
    let c = chars_per_update as nat;
    if k > 0 {
        let k0 = (k - 1) as nat;
        law_updates_reveal_at_the_rate(text, frames_per_update, chars_per_update, punct, k0);
        let (r, cn, p) = reveal_steps(text, 0, 0u8, 0u8, frames_per_update, chars_per_update, 0u8, punct, k0);
        let q = k0 / f;
        let m = k0 % f;
        lemma_fundamental_div_mod(k0 as int, f as int);
        lemma_mod_bound(k0 as int, f as int);
        assert(k as int == (q as int) * (f as int) + m + 1) by (nonlinear_arith)
            requires
                k0 as int == (f as int) * (q as int) + m,
                k == k0 + 1,
        ;
        if m + 1 < f {
            lemma_fundamental_div_mod_converse(k as int, f as int, q as int, (m + 1) as int);
        } else {
            assert(k as int == (q + 1) * (f as int) + 0) by (nonlinear_arith)
                requires
                    k as int == (q as int) * (f as int) + m + 1,
                    m + 1 == f,
            ;
            lemma_fundamental_div_mod_converse(k as int, f as int, (q + 1) as int, 0);
        }
        assert((q + 1) * c == q * c + c) by (nonlinear_arith);
        assert(q * c <= (q + 1) * c) by (nonlinear_arith);
        let kq = if m + 1 < f { q } else { q + 1 };
        assert(k / f == kq);
        let step = reveal_step(text, r, cn, p, frames_per_update, chars_per_update, 0u8, punct);
        assert(reveal_steps(text, 0, 0u8, 0u8, frames_per_update, chars_per_update, 0u8, punct, k) == (
            step.0,
            step.1,
            step.2,
        ));
        if q * c < text.len() {
            assert(r == q * c && cn == m && p == 0);
            if m + 1 < f {
                assert(step == (r, (cn + 1) as u8, p, 0int));
            } else {
                lemma_reveal_count_no_pause(text, r, c as int, punct);
                let n = reveal_count(text, r, c as int, 0u8, punct);
                assert(step == (r + n, 0u8, p, n));
                assert(k % f == 0);
            }
        } else {
            assert(r == text.len() && p == 0);
            assert(step == (r, cn, p, 0int));
            assert(kq * c >= q * c);
        }
    } else {
        lemma_fundamental_div_mod_converse(0, f as int, 0, 0);
    }
}

proof fn lemma_reveal_count_stops(text: Seq<u8>, from: int, per_update: int, pause_frames: u8, punct: Seq<u8>)
    requires
        0 <= from < text.len(),
        per_update >= 1,
    ensures
        ({
            let n = reveal_count(text, from, per_update, pause_frames, punct);
            &&& 1 <= n <= per_update
            &&& from + n <= text.len()
            &&& forall|k: int| from <= k < from + n - 1 ==> !(pause_frames > 0 && punct.contains(#[trigger] text[k]))
            &&& n == per_update || from + n == text.len() || (pause_frames > 0 && punct.contains(text[from + n - 1]))
        }),
    decreases per_update,
{
    if !(pause_frames > 0 && punct.contains(text[from])) {
        if per_update > 1 && from + 1 < text.len() {
            lemma_reveal_count_stops(text, from + 1, per_update - 1, pause_frames, punct);
        } else {
            assert(reveal_count(text, from + 1, per_update - 1, pause_frames, punct) == 0);
        }
    }
}

/// A reveal stops just after punctuation: when a frame reveals bytes (the
/// text is not all shown, no pause is pending and the frame counter is due),
/// it reveals at least one byte and at most `chars_per_update`, none of them
/// but the last from `punct` when pauses are on, and it stops short of the
/// rate only at the end of the text or after such a byte; revealing one
/// starts a pause of `pause_frames`, and the frame counter starts over.
pub proof fn law_reveal_stops_after_punctuation(
    text: Seq<u8>,
    revealed: int,
    counter: u8,
    frames_per_update: u8,
    chars_per_update: u8,
    pause_frames: u8,
    punct: Seq<u8>,
)
    requires
        0 <= revealed < text.len(),
        counter + 1 >= frames_per_update,
        chars_per_update >= 1,
    ensures
        ({
            let (r2, c2, p2, n) = reveal_step(text, revealed, counter, 0u8, frames_per_update, chars_per_update, pause_frames, punct);
            let stops = pause_frames > 0 && punct.contains(text[revealed + n - 1]);
            &&& r2 == revealed + n
            &&& 1 <= n <= chars_per_update
            &&& revealed + n <= text.len()
            &&& forall|k: int| revealed <= k < revealed + n - 1 ==> !(pause_frames > 0 && punct.contains(#[trigger] text[k]))
            &&& n == chars_per_update || revealed + n == text.len() || stops
            &&& p2 == if stops { pause_frames } else { 0u8 }
            &&& c2 == 0
        }),
{
    lemma_reveal_count_stops(text, revealed, chars_per_update as int, pause_frames, punct);
}

} // verus!

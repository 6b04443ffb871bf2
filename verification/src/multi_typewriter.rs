use vstd::prelude::*;
use crate::font::{lemma_wrap_in_place_only_breaks_spaces, size_spec, AgbFont};
use crate::layout::{drawable, MAX_DRAW_LEN};
use crate::renderer::in_rect;
use crate::slot::SlotFont;
use crate::text_format::{TextAlign, TextFormat, TextOverflow};
use crate::text_renderer::{
    char_draw_layout, char_draw_result, char_drawn_px, overflow_cutoff, widened_clear, TextRenderer,
};
use crate::tiles::{lemma_tiles_kept_trans, lemma_tiles_placed_trans, screen_px, tiles_kept, tiles_placed, tracks};
use crate::layout::glyphs_ink_tile;
use crate::typewriter::{
    at_least_one, clear_text_rect, column_width, lemma_subrange_covered, lemma_wrapped_covered, reveal_step,
    reveal_update, size_wrap, text_clear_size, wrapped_text,
};

verus! {

/// Most text streams one renderer holds.
pub const MAX_SLOTS: usize = 0x0100_0000;

/// What a text stream holds: its font and text, how much is revealed and
/// drawn, its reveal timing, where it is drawn and how.
pub struct SlotView {
    pub font: SlotFont,
    pub text: Seq<u8>,
    pub revealed: int,
    pub drawn: int,
    pub counter: u8,
    pub frames: u8,
    pub chars: u8,
    pub start: (i32, i32),
    pub cursor: (i32, i32),
    pub overflow: TextOverflow,
    pub align: TextAlign,
    pub line_width: i32,
    pub wrapped: bool,
    pub pause: u8,
}

struct TypewriterSlot {
    font: SlotFont,
    text: Vec<u8>,
    chars_revealed: usize,
    last_drawn: usize,
    frame_counter: u8,
    frames_per_update: u8,
    chars_per_update: u8,
    start: (i32, i32),
    cursor: (i32, i32),
    overflow: TextOverflow,
    alignment: TextAlign,
    line_width: i32,
    text_wrapped: bool,
    pause_remaining: u8,
}

impl TypewriterSlot {
    spec fn view(&self) -> SlotView {
        SlotView {
            font: self.font,
            text: self.text@,
            revealed: self.chars_revealed as int,
            drawn: self.last_drawn as int,
            counter: self.frame_counter,
            frames: self.frames_per_update,
            chars: self.chars_per_update,
            start: self.start,
            cursor: self.cursor,
            overflow: self.overflow,
            align: self.alignment,
            line_width: self.line_width,
            wrapped: self.text_wrapped,
            pause: self.pause_remaining,
        }
    }
}

/// A stream's counters and positions are in range and its font can draw
/// its text; a cleared (empty) stream keeps its cursor wherever it was.
pub open spec fn slot_ok(s: SlotView) -> bool {
    &&& drawable(&s.font)
    &&& s.font.metrics().covers_text(s.text)
    &&& s.text.len() <= MAX_DRAW_LEN
    &&& 0 <= s.drawn <= s.revealed <= s.text.len()
    &&& s.counter < s.frames
    &&& s.chars >= 1
    &&& -0x0400_0000 <= s.start.0 < 0x0400_0000
    &&& -0x0400_0000 <= s.start.1 < 0x0400_0000
    &&& s.text.len() > 0 ==> s.start.0 - 383 * s.drawn <= s.cursor.0 <= s.start.0 + 383 * s.drawn
    &&& s.text.len() > 0 ==> s.start.1 <= s.cursor.1 <= s.start.1 + 382 * s.drawn
    &&& s.line_width == s.cursor.0 - s.start.0
}

/// Like a typewriter renderer, but manages several independent text
/// streams over one shared tile pool
pub struct MultiTypewriterRenderer {
    renderer: TextRenderer,
    slots: Vec<TypewriterSlot>,
    frames_per_update: u8,
    chars_per_update: u8,
    /// Extra frames a stream holds after revealing any byte in
    /// `punctuation_chars` (default 0 = no pause); shared by every stream
    pub punctuation_pause_frames: u8,
    /// Bytes that trigger the punctuation pause (default `b".!?"`)
    pub punctuation_chars: &'static [u8],
}

impl MultiTypewriterRenderer {
    /// The text streams, in the order they were added.
    pub closed spec fn slots_view(&self) -> Seq<SlotView> {
        self.slots@.map_values(|s: TypewriterSlot| s.view())
    }

    /// The shared renderer.
    pub closed spec fn renderer_view(&self) -> TextRenderer {
        self.renderer
    }

    /// Default frames between reveals.
    pub closed spec fn frames_view(&self) -> u8 {
        self.frames_per_update
    }

    /// Default bytes per reveal.
    pub closed spec fn chars_view(&self) -> u8 {
        self.chars_per_update
    }

    /// Pause after punctuation.
    pub closed spec fn pause_frames_view(&self) -> u8 {
        self.punctuation_pause_frames
    }

    /// Punctuation bytes.
    pub closed spec fn punct_view(&self) -> Seq<u8> {
        self.punctuation_chars@
    }

    /// Every stream is in range, the renderer is well formed and the
    /// default rates are at least 1.
    pub closed spec fn wf(&self) -> bool {
        &&& self.renderer.wf()
        &&& self.slots@.len() <= MAX_SLOTS
        &&& self.frames_per_update >= 1
        &&& self.chars_per_update >= 1
        &&& forall|i: int| 0 <= i < self.slots@.len() ==> slot_ok(#[trigger] self.slots@[i].view())
    }

    proof fn lemma_slots_view(&self)
        ensures
            self.slots_view().len() == self.slots@.len(),
            forall|i: int| 0 <= i < self.slots@.len() ==> #[trigger] self.slots_view()[i] == self.slots@[i].view(),
    {
    }

    /// A renderer with the given default `frames_per_update` and
    /// `chars_per_update` (both at least 1)
    pub fn new(frames_per_update: u8, chars_per_update: u8) -> (r: Self)
        ensures
            r.wf(),
            r.slots_view().len() == 0,
            r.frames_view() == at_least_one(frames_per_update),
            r.chars_view() == at_least_one(chars_per_update),
            r.pause_frames_view() == 0,
            r.punct_view() == seq![46u8, 33u8, 63u8],
            r.renderer_view().tiles_view().len() == 0,
            r.renderer_view().letter_spacing == 1,
            r.renderer_view().line_spacing == 0,
    {
        let punct: &'static [u8] = &[46u8, 33u8, 63u8];
        assert(punct@ =~= seq![46u8, 33u8, 63u8]);
        let r = MultiTypewriterRenderer {
            renderer: TextRenderer::default(),
            slots: Vec::new(),
            frames_per_update: if frames_per_update == 0 { 1 } else { frames_per_update },
            chars_per_update: if chars_per_update == 0 { 1 } else { chars_per_update },
            punctuation_pause_frames: 0,
            punctuation_chars: punct,
        };
        proof {
            assert(r.slots_view() =~= Seq::<SlotView>::empty());
        }
        r
    }
}

/// Bytes revealed over all streams in one frame.
pub open spec fn reveal_total(slots: Seq<SlotView>, pause_frames: u8, punct: Seq<u8>) -> int
    decreases slots.len(),
{
    if slots.len() == 0 {
        0
    } else {
        let s = slots.last();
        reveal_total(slots.drop_last(), pause_frames, punct) + reveal_step(
            s.text,
            s.revealed,
            s.counter,
            s.pause,
            s.frames,
            s.chars,
            pause_frames,
            punct,
        ).3
    }
}

/// A stream after one frame of revealing (see `reveal_step`).
pub open spec fn stepped(s: SlotView, pause_frames: u8, punct: Seq<u8>) -> SlotView {
    let (revealed, counter, pause, _) = reveal_step(s.text, s.revealed, s.counter, s.pause, s.frames, s.chars, pause_frames, punct);
    SlotView { revealed, counter, pause, ..s }
}

/// A new stream of `text` at `pos`.
pub open spec fn new_slot(font: SlotFont, text: Seq<u8>, pos: (i32, i32), chars: u8, frames: u8, format: TextFormat) -> SlotView {
    SlotView {
        font,
        text,
        revealed: 0,
        drawn: 0,
        counter: 0,
        frames,
        chars,
        start: pos,
        cursor: pos,
        overflow: format.overflow,
        align: format.align,
        line_width: 0,
        wrapped: false,
        pause: 0,
    }
}

proof fn lemma_reveal_step_bounds(s: SlotView, pause_frames: u8, punct: Seq<u8>)
    requires
        slot_ok(s),
    ensures
        slot_ok(stepped(s, pause_frames, punct)),
        0 <= reveal_step(s.text, s.revealed, s.counter, s.pause, s.frames, s.chars, pause_frames, punct).3 <= s.chars,
{
    crate::typewriter::lemma_reveal_step_props(s.text, s.revealed, s.counter, s.pause, s.frames, s.chars, pause_frames, punct);
}

impl TypewriterSlot {
    fn update(&mut self, pause_frames: u8, punct: &[u8]) -> (r: usize)
        requires
            slot_ok(old(self).view()),
        ensures
            final(self).view() == stepped(old(self).view(), pause_frames, punct@),
            r == reveal_step(
                old(self).text@,
                old(self).chars_revealed as int,
                old(self).frame_counter,
                old(self).pause_remaining,
                old(self).frames_per_update,
                old(self).chars_per_update,
                pause_frames,
                punct@,
            ).3,
    {
        reveal_update(
            self.text.as_slice(),
            &mut self.chars_revealed,
            &mut self.frame_counter,
            &mut self.pause_remaining,
            self.frames_per_update,
            self.chars_per_update,
            pause_frames,
            punct,
        )
    }
}

impl MultiTypewriterRenderer {
    /// Add a new text stream with its own rates (both at least 1); returns
    /// its slot index
    pub fn add_text_custom(
        &mut self,
        font: SlotFont,
        text: &[u8],
        pos: (i32, i32),
        chars_per_update: u8,
        frames_per_update: u8,
        format: &TextFormat,
    ) -> (r: usize)
        requires
            old(self).wf(),
            old(self).slots_view().len() < MAX_SLOTS,
            drawable(&font),
            font.metrics().covers_text(text@),
            text.len() <= MAX_DRAW_LEN,
            -0x0400_0000 <= pos.0 < 0x0400_0000,
            -0x0400_0000 <= pos.1 < 0x0400_0000,
        ensures
            final(self).wf(),
            r == old(self).slots_view().len(),
            final(self).slots_view() == old(self).slots_view().push(
                new_slot(font, text@, pos, at_least_one(chars_per_update), at_least_one(frames_per_update), *format),
            ),
            final(self).renderer_view() == old(self).renderer_view(),
            final(self).frames_view() == old(self).frames_view(),
            final(self).chars_view() == old(self).chars_view(),
            final(self).pause_frames_view() == old(self).pause_frames_view(),
            final(self).punct_view() == old(self).punct_view(),
    {
        let mut v: Vec<u8> = Vec::with_capacity(text.len());
        let mut i: usize = 0;
        while i < text.len()
            invariant
                0 <= i <= text.len(),
                v@ == text@.subrange(0, i as int),
            decreases text.len() - i,
        {
            v.push(text[i]);
            i = i + 1;
            assert(v@ =~= text@.subrange(0, i as int));
        }
        assert(text@.subrange(0, text.len() as int) =~= text@);
        let slot = TypewriterSlot {
            font,
            text: v,
            chars_revealed: 0,
            last_drawn: 0,
            frame_counter: 0,
            frames_per_update: if frames_per_update == 0 { 1 } else { frames_per_update },
            chars_per_update: if chars_per_update == 0 { 1 } else { chars_per_update },
            start: pos,
            cursor: pos,
            overflow: format.overflow,
            alignment: format.align,
            line_width: 0,
            text_wrapped: false,
            pause_remaining: 0,
        };
        let ghost before = self.slots@;
        self.slots.push(slot);
        proof {
            assert(self.slots_view() =~= old(self).slots_view().push(slot.view()));
            assert forall|k: int| 0 <= k < self.slots@.len() implies slot_ok(#[trigger] self.slots@[k].view()) by {
                if k < before.len() {
                    assert(self.slots@[k] == before[k]);
                }
            }
        }
        self.slots.len() - 1
    }

    /// Add a new text stream with the default rates; returns its slot index
    pub fn add_text(&mut self, font: SlotFont, text: &[u8], pos: (i32, i32), format: &TextFormat) -> (r: usize)
        requires
            old(self).wf(),
            old(self).slots_view().len() < MAX_SLOTS,
            drawable(&font),
            font.metrics().covers_text(text@),
            text.len() <= MAX_DRAW_LEN,
            -0x0400_0000 <= pos.0 < 0x0400_0000,
            -0x0400_0000 <= pos.1 < 0x0400_0000,
        ensures
            final(self).wf(),
            r == old(self).slots_view().len(),
            final(self).slots_view() == old(self).slots_view().push(
                new_slot(font, text@, pos, old(self).chars_view(), old(self).frames_view(), *format),
            ),
            final(self).renderer_view() == old(self).renderer_view(),
            final(self).frames_view() == old(self).frames_view(),
            final(self).chars_view() == old(self).chars_view(),
            final(self).pause_frames_view() == old(self).pause_frames_view(),
            final(self).punct_view() == old(self).punct_view(),
    {
        let cpu = self.chars_per_update;
        let fpu = self.frames_per_update;
        self.add_text_custom(font, text, pos, cpu, fpu, format)
    }

    /// Advance every stream by one frame; returns the number of bytes
    /// revealed over all of them
    pub fn update(&mut self) -> (r: usize)
        requires
            old(self).wf(),
        ensures
            final(self).wf(),
            final(self).slots_view() == old(self).slots_view().map_values(
                |s: SlotView| stepped(s, old(self).pause_frames_view(), old(self).punct_view()),
            ),
            r == reveal_total(old(self).slots_view(), old(self).pause_frames_view(), old(self).punct_view()),
            final(self).renderer_view() == old(self).renderer_view(),
            final(self).frames_view() == old(self).frames_view(),
            final(self).chars_view() == old(self).chars_view(),
            final(self).pause_frames_view() == old(self).pause_frames_view(),
            final(self).punct_view() == old(self).punct_view(),
    {
        let ghost old_views = self.slots_view();
        let pf = self.punctuation_pause_frames;
        let punct = self.punctuation_chars;
        let mut revealed: usize = 0;
        let mut i: usize = 0;
        while i < self.slots.len()
            invariant
                0 <= i <= self.slots@.len(),
                self.slots@.len() == old_views.len(),
                self.slots@.len() <= MAX_SLOTS,
                old_views == old(self).slots_view(),
                pf == old(self).punctuation_pause_frames,
                punct == old(self).punctuation_chars,
                self.renderer == old(self).renderer,
                self.frames_per_update == old(self).frames_per_update,
                self.chars_per_update == old(self).chars_per_update,
                self.punctuation_pause_frames == pf,
                self.punctuation_chars == punct,
                forall|k: int| 0 <= k < i ==> #[trigger] self.slots@[k].view() == stepped(old_views[k], pf, punct@),
                forall|k: int| i <= k < old_views.len() ==> #[trigger] self.slots@[k].view() == old_views[k],
                forall|k: int| 0 <= k < old_views.len() ==> slot_ok(#[trigger] old_views[k]),
                revealed == reveal_total(old_views.subrange(0, i as int), pf, punct@),
                revealed <= 255 * i,
            decreases old_views.len() - i,
        {
            let ghost before = self.slots@;
            proof {
                lemma_reveal_step_bounds(old_views[i as int], pf, punct@);
                assert(old_views.subrange(0, i + 1).drop_last() =~= old_views.subrange(0, i as int));
            }
            let n = self.slots[i].update(pf, punct);
            revealed = revealed + n;
            proof {
                assert forall|k: int| 0 <= k < old_views.len() && k != i implies #[trigger] self.slots@[k] == before[k] by {}
            }
            i = i + 1;
        }
        proof {
            assert(old_views.subrange(0, old_views.len() as int) =~= old_views);
            assert(self.slots_view() =~= old_views.map_values(|s: SlotView| stepped(s, pf, punct@)));
            assert forall|k: int| 0 <= k < self.slots@.len() implies slot_ok(#[trigger] self.slots@[k].view()) by {
                lemma_reveal_step_bounds(old_views[k], pf, punct@);
            }
        }
        revealed
    }
}

/// A stream with its whole text revealed and no pause left.
pub open spec fn completed(s: SlotView) -> SlotView {
    SlotView { revealed: s.text.len() as int, pause: 0u8, ..s }
}

/// Every stream has revealed its whole text.
pub open spec fn all_complete(slots: Seq<SlotView>) -> bool {
    forall|i: int| 0 <= i < slots.len() ==> #[trigger] slots[i].revealed >= slots[i].text.len()
}

impl Default for MultiTypewriterRenderer {
    /// One character revealed every frame
    fn default() -> (r: Self)
        ensures
            r.wf(),
            r.slots_view().len() == 0,
            r.frames_view() == 1,
            r.chars_view() == 1,
    {
        Self::new(1, 1)
    }
}

impl MultiTypewriterRenderer {
    /// Advance one stream by one frame; returns the number of bytes it
    /// revealed
    pub fn update_slot(&mut self, idx: usize) -> (r: usize)
        requires
            old(self).wf(),
            idx < old(self).slots_view().len(),
        ensures
            final(self).wf(),
            final(self).slots_view() == old(self).slots_view().update(
                idx as int,
                stepped(old(self).slots_view()[idx as int], old(self).pause_frames_view(), old(self).punct_view()),
            ),
            ({
                let s = old(self).slots_view()[idx as int];
                r == reveal_step(
                    s.text,
                    s.revealed,
                    s.counter,
                    s.pause,
                    s.frames,
                    s.chars,
                    old(self).pause_frames_view(),
                    old(self).punct_view(),
                ).3
            }),
            final(self).renderer_view() == old(self).renderer_view(),
            final(self).pause_frames_view() == old(self).pause_frames_view(),
            final(self).punct_view() == old(self).punct_view(),
    {
        let ghost before = self.slots@;
        let pf = self.punctuation_pause_frames;
        let punct = self.punctuation_chars;
        proof {
            self.lemma_slots_view();
            lemma_reveal_step_bounds(before[idx as int].view(), pf, punct@);
        }
        let r = self.slots[idx].update(pf, punct);
        proof {
            assert(self.slots_view() =~= old(self).slots_view().update(
                idx as int,
                stepped(old(self).slots_view()[idx as int], pf, punct@),
            ));
            assert forall|k: int| 0 <= k < self.slots@.len() implies slot_ok(#[trigger] self.slots@[k].view()) by {
                if k != idx {
                    assert(self.slots@[k] == before[k]);
                }
            }
        }
        r
    }

    /// Immediately reveal all characters of every stream
    pub fn complete_all(&mut self)
        requires
            old(self).wf(),
        ensures
            final(self).wf(),
            final(self).slots_view() == old(self).slots_view().map_values(|s: SlotView| completed(s)),
            final(self).renderer_view() == old(self).renderer_view(),
    {
        let ghost olds = self.slots_view();
        let mut i: usize = 0;
        while i < self.slots.len()
            invariant
                0 <= i <= self.slots@.len(),
                self.slots@.len() == olds.len(),
                self.slots@.len() <= MAX_SLOTS,
                olds == old(self).slots_view(),
                self.renderer == old(self).renderer,
                self.frames_per_update == old(self).frames_per_update,
                self.chars_per_update == old(self).chars_per_update,
                forall|k: int| 0 <= k < i ==> #[trigger] self.slots@[k].view() == completed(olds[k]),
                forall|k: int| i <= k < olds.len() ==> #[trigger] self.slots@[k].view() == olds[k],
                forall|k: int| 0 <= k < olds.len() ==> slot_ok(#[trigger] olds[k]),
            decreases olds.len() - i,
        {
            let ghost before = self.slots@;
            let n = self.slots[i].text.len();
            self.slots[i].chars_revealed = n;
            self.slots[i].pause_remaining = 0;
            proof {
                assert forall|k: int| 0 <= k < olds.len() && k != i implies #[trigger] self.slots@[k] == before[k] by {}
                assert(before[i as int].view() == olds[i as int]);
                assert(self.slots@[i as int].view() =~= completed(olds[i as int]));
            }
            i = i + 1;
        }
        proof {
            assert(self.slots_view() =~= olds.map_values(|s: SlotView| completed(s)));
            assert forall|k: int| 0 <= k < self.slots@.len() implies slot_ok(#[trigger] self.slots@[k].view()) by {
                assert(slot_ok(olds[k]));
            }
        }
    }

    /// Immediately reveal all characters of one stream
    pub fn complete_slot(&mut self, idx: usize)
        requires
            old(self).wf(),
            idx < old(self).slots_view().len(),
        ensures
            final(self).wf(),
            final(self).slots_view() == old(self).slots_view().update(idx as int, completed(old(self).slots_view()[idx as int])),
            final(self).renderer_view() == old(self).renderer_view(),
    {
        let ghost before = self.slots@;
        let n = self.slots[idx].text.len();
        self.slots[idx].chars_revealed = n;
        self.slots[idx].pause_remaining = 0;
        proof {
            assert(self.slots_view() =~= old(self).slots_view().update(idx as int, completed(old(self).slots_view()[idx as int])));
            assert forall|k: int| 0 <= k < self.slots@.len() implies slot_ok(#[trigger] self.slots@[k].view()) by {
                assert(slot_ok(before[k].view()));
            }
        }
    }

    /// Pixel position where a stream draws its next character (left
    /// alignment)
    pub fn slot_cursor(&self, idx: usize) -> (r: (i32, i32))
        requires
            idx < self.slots_view().len(),
        ensures
            r == self.slots_view()[idx as int].cursor,
    {
        self.slots[idx].cursor
    }

    /// Number of bytes a stream has revealed
    pub fn slot_chars_revealed(&self, idx: usize) -> (r: usize)
        requires
            idx < self.slots_view().len(),
        ensures
            r == self.slots_view()[idx as int].revealed,
    {
        self.slots[idx].chars_revealed
    }

    /// Whether every stream has revealed its whole text
    pub fn is_complete(&self) -> (r: bool)
        ensures
            r == all_complete(self.slots_view()),
    {
        let mut i: usize = 0;
        while i < self.slots.len()
            invariant
                0 <= i <= self.slots@.len(),
                forall|k: int| 0 <= k < i ==> #[trigger] self.slots_view()[k].revealed >= self.slots_view()[k].text.len(),
            decreases self.slots@.len() - i,
        {
            if self.slots[i].chars_revealed < self.slots[i].text.len() {
                assert(self.slots_view()[i as int].revealed < self.slots_view()[i as int].text.len());
                return false;
            }
            i = i + 1;
        }
        true
    }

    /// Whether one stream has revealed its whole text
    pub fn is_slot_complete(&self, idx: usize) -> (r: bool)
        requires
            idx < self.slots_view().len(),
        ensures
            r == (self.slots_view()[idx as int].revealed >= self.slots_view()[idx as int].text.len()),
    {
        self.slots[idx].chars_revealed >= self.slots[idx].text.len()
    }

    /// Number of streams
    pub fn slot_count(&self) -> (r: usize)
        ensures
            r == self.slots_view().len(),
    {
        self.slots.len()
    }

    /// The shared renderer, e.g. to clear a custom rectangle
    pub fn renderer_mut(&mut self) -> (r: &mut TextRenderer)
        requires
            old(self).wf(),
        ensures
            *r == old(self).renderer_view(),
            final(self).renderer_view() == *final(r),
            final(self).slots_view() == old(self).slots_view(),
            final(r).wf() ==> final(self).wf(),
    {
        &mut self.renderer
    }
}

/// A stream's clear rectangle (see `text_clear_size`).
pub open spec fn slot_clear_size(s: SlotView, spacing: i8, line_spacing: i8) -> (int, int) {
    text_clear_size(
        s.font.metrics(),
        s.font.height_view() as int,
        s.font.overhang_view() as int,
        s.text,
        s.overflow,
        s.align,
        spacing as int,
        line_spacing as int,
    )
}

/// Screen pixel `(x, y)` inside the clear rectangle of a non-empty stream.
pub open spec fn in_slot_clear(s: SlotView, spacing: i8, line_spacing: i8, x: int, y: int) -> bool {
    let (w, h) = slot_clear_size(s, spacing, line_spacing);
    s.text.len() > 0 && in_rect(s.start, (w as i32, h as i32), x, y)
}

/// Some pixel of the tile at column `tx`, row `ty` is inked by the glyphs
/// that drawing a stream places (see `slot_draw_px`).
pub open spec fn slot_inks_tile(s: SlotView, t: Seq<u8>, spacing: i8, line_spacing: i8, tx: int, ty: int) -> bool {
    let font = s.font;
    let layout = if s.align is Left {
        char_draw_layout(
            &font,
            t.subrange(s.drawn, s.revealed),
            s.cursor,
            s.overflow,
            TextAlign::Left,
            s.line_width,
            s.start.0,
            spacing,
            line_spacing,
        )
    } else {
        char_draw_layout(&font, t.take(s.revealed), s.start, s.overflow, s.align, 0i32, s.start.0, spacing, line_spacing)
    };
    glyphs_ink_tile(&font, layout.4, overflow_cutoff(s.overflow, s.start.0), tx, ty)
}

/// The part of a stream that a draw blits, and where: the new characters
/// from the cursor when left aligned, the whole revealed part from the start
/// (its column cleared first) otherwise.
pub open spec fn slot_draw_px(
    s: SlotView,
    t: Seq<u8>,
    before: Seq<crate::tiles::TileRows>,
    spacing: i8,
    line_spacing: i8,
    x: int,
    y: int,
) -> u32 {
    let font = s.font;
    if s.align is Left {
        let layout = char_draw_layout(
            &font,
            t.subrange(s.drawn, s.revealed),
            s.cursor,
            s.overflow,
            TextAlign::Left,
            s.line_width,
            s.start.0,
            spacing,
            line_spacing,
        );
        char_drawn_px(&font, before, layout.4, overflow_cutoff(s.overflow, s.start.0), s.cursor, (0i32, 0i32), x, y)
    } else {
        let layout = char_draw_layout(
            &font,
            t.take(s.revealed),
            s.start,
            s.overflow,
            s.align,
            0i32,
            s.start.0,
            spacing,
            line_spacing,
        );
        let h = size_spec(
            font.metrics(),
            font.height_view() as int,
            t,
            size_wrap(s.overflow),
            spacing as int,
            line_spacing as int,
        ).1;
        char_drawn_px(
            &font,
            before,
            layout.4,
            overflow_cutoff(s.overflow, s.start.0),
            s.start,
            widened_clear(&font, (column_width(s.align) as i32, h as i32)),
            x,
            y,
        )
    }
}

/// A stream after a draw: word-wrapped, everything revealed drawn, and when
/// left aligned the cursor moved past the new characters.
pub open spec fn slot_after_draw(s: SlotView, spacing: i8, line_spacing: i8) -> SlotView {
    let font = s.font;
    let t = wrapped_text(font.metrics(), s.text, s.wrapped, s.overflow, spacing);
    if s.drawn >= s.revealed {
        SlotView { text: t, wrapped: true, ..s }
    } else if s.align is Left {
        let layout = char_draw_layout(
            &font,
            t.subrange(s.drawn, s.revealed),
            s.cursor,
            s.overflow,
            TextAlign::Left,
            s.line_width,
            s.start.0,
            spacing,
            line_spacing,
        );
        let res = char_draw_result(layout, s.cursor);
        SlotView {
            text: t,
            wrapped: true,
            drawn: s.revealed,
            cursor: ((s.cursor.0 + res.0) as i32, (s.cursor.1 + res.1) as i32),
            line_width: (s.line_width + res.0) as i32,
            ..s
        }
    } else {
        SlotView { text: t, wrapped: true, drawn: s.revealed, ..s }
    }
}

impl MultiTypewriterRenderer {
    /// Draw the newly revealed characters of one stream (see
    /// `slot_after_draw` and `slot_draw_px`); the stream is word-wrapped in
    /// place first when its overflow wraps at words. `palette_id` is the
    /// palette newly placed tiles are shown with
    pub fn draw_slot(&mut self, idx: usize, palette_id: u8)
        requires
            old(self).wf(),
            idx < old(self).slots_view().len(),
        ensures
            final(self).wf(),
            ({
                let s = old(self).slots_view()[idx as int];
                let spacing = old(self).renderer_view().letter_spacing;
                let line_spacing = old(self).renderer_view().line_spacing;
                let t = wrapped_text(s.font.metrics(), s.text, s.wrapped, s.overflow, spacing);
                let before = old(self).renderer_view().tiles_view();
                let after = final(self).renderer_view().tiles_view();
                &&& final(self).slots_view() == old(self).slots_view().update(
                    idx as int,
                    slot_after_draw(s, spacing, line_spacing),
                )
                &&& final(self).renderer_view().letter_spacing == spacing
                &&& final(self).renderer_view().line_spacing == line_spacing
                &&& final(self).renderer_view().palette_id == old(self).renderer_view().palette_id
                &&& tiles_placed(before, after, palette_id)
                &&& s.drawn >= s.revealed ==> after == before
                &&& s.drawn < s.revealed ==> forall|x: int, y: int|
                    #[trigger] screen_px(after, x, y) == slot_draw_px(s, t, before, spacing, line_spacing, x, y)
                &&& s.drawn < s.revealed ==> forall|tx: int, ty: int|
                    #[trigger] tracks(after, tx, ty) <==> tracks(before, tx, ty) || slot_inks_tile(
                        s,
                        t,
                        spacing,
                        line_spacing,
                        tx,
                        ty,
                    )
            }),
            final(self).frames_view() == old(self).frames_view(),
            final(self).chars_view() == old(self).chars_view(),
            final(self).pause_frames_view() == old(self).pause_frames_view(),
            final(self).punct_view() == old(self).punct_view(),
    {
        let ghost before_slots = self.slots@;
        let ghost s = before_slots[idx as int].view();
        proof {
            self.lemma_slots_view();
            assert(slot_ok(s));
        }
        let spacing = self.renderer.letter_spacing;
        let font: SlotFont = self.slots[idx].font;
        proof {
            lemma_wrapped_covered(font.metrics(), s.text, s.wrapped, s.overflow, spacing);
        }
        if !self.slots[idx].text_wrapped {
            if let TextOverflow::Wrap(w, true) = self.slots[idx].overflow {
                font.word_wrap_in_place(self.slots[idx].text.as_mut_slice(), w as u32, spacing);
            }
            self.slots[idx].text_wrapped = true;
        }
        let ghost t = self.slots@[idx as int].text@;
        proof {
            assert(t == wrapped_text(font.metrics(), s.text, s.wrapped, s.overflow, spacing));
        }
        let last = self.slots[idx].last_drawn;
        let rev = self.slots[idx].chars_revealed;
        if last >= rev {
            proof {
                assert(self.slots@[idx as int].view() =~= slot_after_draw(s, spacing, self.renderer.line_spacing));
                assert(self.slots_view() =~= old(self).slots_view().update(
                    idx as int,
                    slot_after_draw(s, spacing, self.renderer.line_spacing),
                ));
                assert forall|k: int| 0 <= k < self.slots@.len() implies slot_ok(#[trigger] self.slots@[k].view()) by {
                    if k != idx {
                        assert(self.slots@[k] == before_slots[k]);
                    }
                }
            }
            return ;
        }
        let alignment = self.slots[idx].alignment;
        let overflow = self.slots[idx].overflow;
        let start = self.slots[idx].start;
        let cursor = self.slots[idx].cursor;
        let line_w = self.slots[idx].line_width;
        if alignment == TextAlign::Left {
            proof {
                lemma_subrange_covered(font.metrics(), t, last as int, rev as int);
            }
            let (cx, cy, _) = self.renderer.int_draw_text(
                &self.slots[idx].text.as_slice()[last..rev],
                &font,
                cursor,
                overflow,
                TextAlign::Left,
                palette_id,
                (0, 0),
                line_w,
                start.0,
            );
            self.slots[idx].cursor = (cursor.0 + cx, cursor.1 + cy);
            self.slots[idx].line_width = line_w + cx;
        } else {
            let column_w: u16 = match alignment {
                TextAlign::Center(w) => w,
                TextAlign::Right(w) => w,
                TextAlign::Left => 0,
            };
            let wrap32: Option<u32> = match overflow {
                TextOverflow::Wrap(w, _) => Some(w as u32),
                _ => None,
            };
            let (_, h) = font.size_of(self.slots[idx].text.as_slice(), wrap32, spacing, self.renderer.line_spacing);
            proof {
                lemma_subrange_covered(font.metrics(), t, 0, rev as int);
                assert(t.subrange(0, rev as int) =~= t.take(rev as int));
            }
            self.renderer.int_draw_text(
                &self.slots[idx].text.as_slice()[0..rev],
                &font,
                start,
                overflow,
                alignment,
                palette_id,
                (column_w as i32, h as i32),
                0,
                start.0,
            );
        }
        self.slots[idx].last_drawn = rev;
        proof {
            assert(self.slots@[idx as int].view() =~= slot_after_draw(s, spacing, self.renderer.line_spacing));
            assert(self.slots_view() =~= old(self).slots_view().update(
                idx as int,
                slot_after_draw(s, spacing, self.renderer.line_spacing),
            ));
            assert forall|k: int| 0 <= k < self.slots@.len() implies slot_ok(#[trigger] self.slots@[k].view()) by {
                if k != idx {
                    assert(self.slots@[k] == before_slots[k]);
                }
            }
        }
    }
}

/// Drawing stream `s` takes the screen from `before` to `after` (see
/// `draw_slot`): nothing changes when nothing new is revealed, else the
/// screen shows what `slot_draw_px` says.
pub open spec fn slot_draw_step(
    s: SlotView,
    spacing: i8,
    line_spacing: i8,
    before: Seq<crate::tiles::TileRows>,
    after: Seq<crate::tiles::TileRows>,
) -> bool {
    let t = wrapped_text(s.font.metrics(), s.text, s.wrapped, s.overflow, spacing);
    &&& after.len() >= before.len()
    &&& s.drawn >= s.revealed ==> after == before
    &&& s.drawn < s.revealed ==> forall|x: int, y: int|
        #[trigger] screen_px(after, x, y) == slot_draw_px(s, t, before, spacing, line_spacing, x, y)
    &&& s.drawn < s.revealed ==> forall|tx: int, ty: int|
        #[trigger] tracks(after, tx, ty) <==> tracks(before, tx, ty) || slot_inks_tile(s, t, spacing, line_spacing, tx, ty)
}

impl MultiTypewriterRenderer {
    /// Draw the newly revealed characters of every stream, in order (see
    /// `draw_slot`): the screen goes through one state per stream, each
    /// drawn over the one before
    pub fn draw(&mut self, palette_id: u8)
        requires
            old(self).wf(),
        ensures
            final(self).wf(),
            final(self).slots_view() == old(self).slots_view().map_values(
                |s: SlotView| slot_after_draw(s, old(self).renderer_view().letter_spacing, old(self).renderer_view().line_spacing),
            ),
            final(self).renderer_view().letter_spacing == old(self).renderer_view().letter_spacing,
            final(self).renderer_view().line_spacing == old(self).renderer_view().line_spacing,
            final(self).renderer_view().palette_id == old(self).renderer_view().palette_id,
            tiles_placed(old(self).renderer_view().tiles_view(), final(self).renderer_view().tiles_view(), palette_id),
            exists|screens: Seq<Seq<crate::tiles::TileRows>>|
                {
                    &&& screens.len() == old(self).slots_view().len() + 1
                    &&& screens[0] == old(self).renderer_view().tiles_view()
                    &&& screens.last() == final(self).renderer_view().tiles_view()
                    &&& forall|k: int|
                        0 <= k < old(self).slots_view().len() ==> #[trigger] slot_draw_step(
                            old(self).slots_view()[k],
                            old(self).renderer_view().letter_spacing,
                            old(self).renderer_view().line_spacing,
                            screens[k],
                            screens[k + 1],
                        )
                },
    {
        let ghost olds = self.slots_view();
        let ghost mut screens: Seq<Seq<crate::tiles::TileRows>> = seq![self.renderer.tiles_view()];
        let ghost spacing = self.renderer.letter_spacing;
        let ghost line_spacing = self.renderer.line_spacing;
        let mut i: usize = 0;
        while i < self.slots.len()
            invariant
                0 <= i <= self.slots@.len(),
                self.wf(),
                self.slots_view().len() == olds.len(),
                olds == old(self).slots_view(),
                spacing == old(self).renderer_view().letter_spacing,
                line_spacing == old(self).renderer_view().line_spacing,
                self.renderer.letter_spacing == spacing,
                self.renderer.line_spacing == line_spacing,
                self.renderer.palette_id == old(self).renderer_view().palette_id,
                tiles_placed(old(self).renderer_view().tiles_view(), self.renderer.tiles_view(), palette_id),
                forall|k: int| 0 <= k < i ==> #[trigger] self.slots_view()[k] == slot_after_draw(olds[k], spacing, line_spacing),
                forall|k: int| i <= k < olds.len() ==> #[trigger] self.slots_view()[k] == olds[k],
                screens.len() == i + 1,
                screens[0] == old(self).renderer_view().tiles_view(),
                screens.last() == self.renderer.tiles_view(),
                forall|k: int|
                    0 <= k < i ==> #[trigger] slot_draw_step(olds[k], spacing, line_spacing, screens[k], screens[k + 1]),
            decreases olds.len() - i,
        {
            proof {
                self.lemma_slots_view();
            }
            let ghost before = self.slots_view();
            let ghost tiles0 = self.renderer.tiles_view();
            self.draw_slot(i, palette_id);
            proof {
                lemma_tiles_placed_trans(old(self).renderer_view().tiles_view(), tiles0, self.renderer.tiles_view(), palette_id);
                self.lemma_slots_view();
                assert forall|k: int| 0 <= k < olds.len() && k != i implies #[trigger] self.slots_view()[k] == before[k] by {}
                assert(before[i as int] == olds[i as int]);
                assert(slot_draw_step(olds[i as int], spacing, line_spacing, tiles0, self.renderer.tiles_view()));
                let s2 = screens.push(self.renderer.tiles_view());
                assert forall|k: int| 0 <= k < i + 1 implies #[trigger] slot_draw_step(
                    olds[k],
                    spacing,
                    line_spacing,
                    s2[k],
                    s2[k + 1],
                ) by {
                    if k < i {
                        assert(s2[k] == screens[k] && s2[k + 1] == screens[k + 1]);
                    } else {
                        assert(s2[k] == tiles0);
                    }
                }
                screens = s2;
            }
            i = i + 1;
        }
        proof {
            self.lemma_slots_view();
            assert(self.slots_view() =~= olds.map_values(|s: SlotView| slot_after_draw(s, spacing, line_spacing)));
        }
    }

    /// Clear a stream's pixel region and empty its text; the stream stays as
    /// an inert, complete entry so that the other indices stay valid
    pub fn clear_slot(&mut self, idx: usize)
        requires
            old(self).wf(),
            idx < old(self).slots_view().len(),
        ensures
            final(self).wf(),
            ({
                let s = old(self).slots_view()[idx as int];
                let spacing = old(self).renderer_view().letter_spacing;
                let line_spacing = old(self).renderer_view().line_spacing;
                &&& final(self).slots_view() == old(self).slots_view().update(
                    idx as int,
                    SlotView { text: Seq::empty(), revealed: 0, drawn: 0, pause: 0u8, ..s },
                )
                &&& final(self).renderer_view().letter_spacing == spacing
                &&& final(self).renderer_view().line_spacing == line_spacing
                &&& final(self).renderer_view().palette_id == old(self).renderer_view().palette_id
                &&& tiles_kept(old(self).renderer_view().tiles_view(), final(self).renderer_view().tiles_view())
                &&& forall|x: int, y: int|
                    #[trigger] screen_px(final(self).renderer_view().tiles_view(), x, y) == if in_slot_clear(
                        s,
                        spacing,
                        line_spacing,
                        x,
                        y,
                    ) {
                        0
                    } else {
                        screen_px(old(self).renderer_view().tiles_view(), x, y)
                    }
            }),
            final(self).frames_view() == old(self).frames_view(),
            final(self).chars_view() == old(self).chars_view(),
    {
        let ghost before_slots = self.slots@;
        let ghost s = before_slots[idx as int].view();
        proof {
            self.lemma_slots_view();
            assert(slot_ok(s));
        }
        let font: SlotFont = self.slots[idx].font;
        clear_text_rect(
            &mut self.renderer,
            &font,
            self.slots[idx].text.as_slice(),
            self.slots[idx].start,
            self.slots[idx].overflow,
            self.slots[idx].alignment,
        );
        self.slots[idx].text.clear();
        self.slots[idx].chars_revealed = 0;
        self.slots[idx].last_drawn = 0;
        self.slots[idx].pause_remaining = 0;
        proof {
            assert(self.slots@[idx as int].view() =~= SlotView { text: Seq::empty(), revealed: 0, drawn: 0, pause: 0u8, ..s });
            assert(self.slots_view() =~= old(self).slots_view().update(
                idx as int,
                SlotView { text: Seq::empty(), revealed: 0, drawn: 0, pause: 0u8, ..s },
            ));
            assert forall|k: int| 0 <= k < self.slots@.len() implies slot_ok(#[trigger] self.slots@[k].view()) by {
                if k != idx {
                    assert(self.slots@[k] == before_slots[k]);
                } else {
                    assert(s.font.metrics().covers_text(Seq::<u8>::empty()));
                }
            }
        }
    }

    /// Clear every stream's pixel region and remove all streams
    pub fn clear_all(&mut self)
        requires
            old(self).wf(),
        ensures
            final(self).wf(),
            final(self).slots_view().len() == 0,
            final(self).renderer_view().letter_spacing == old(self).renderer_view().letter_spacing,
            final(self).renderer_view().line_spacing == old(self).renderer_view().line_spacing,
            final(self).renderer_view().palette_id == old(self).renderer_view().palette_id,
            tiles_kept(old(self).renderer_view().tiles_view(), final(self).renderer_view().tiles_view()),
            forall|x: int, y: int|
                #[trigger] screen_px(final(self).renderer_view().tiles_view(), x, y) == if exists|k: int|
                    0 <= k < old(self).slots_view().len() && #[trigger] in_slot_clear(
                        old(self).slots_view()[k],
                        old(self).renderer_view().letter_spacing,
                        old(self).renderer_view().line_spacing,
                        x,
                        y,
                    ) {
                    0
                } else {
                    screen_px(old(self).renderer_view().tiles_view(), x, y)
                },
            final(self).frames_view() == old(self).frames_view(),
            final(self).chars_view() == old(self).chars_view(),
    {
        let ghost olds = self.slots_view();
        let ghost t0 = self.renderer.tiles_view();
        let ghost spacing = self.renderer.letter_spacing;
        let ghost line_spacing = self.renderer.line_spacing;
        proof {
            self.lemma_slots_view();
        }
        let mut i: usize = 0;
        while i < self.slots.len()
            invariant
                0 <= i <= self.slots@.len(),
                self.wf(),
                self.slots_view() == olds,
                olds == old(self).slots_view(),
                t0 == old(self).renderer_view().tiles_view(),
                spacing == old(self).renderer_view().letter_spacing,
                line_spacing == old(self).renderer_view().line_spacing,
                self.renderer.letter_spacing == spacing,
                self.renderer.line_spacing == line_spacing,
                self.renderer.palette_id == old(self).renderer_view().palette_id,
                tiles_kept(t0, self.renderer.tiles_view()),
                self.frames_per_update == old(self).frames_per_update,
                self.chars_per_update == old(self).chars_per_update,
                forall|x: int, y: int|
                    #[trigger] screen_px(self.renderer.tiles_view(), x, y) == if exists|k: int|
                        0 <= k < i && #[trigger] in_slot_clear(olds[k], spacing, line_spacing, x, y) {
                        0
                    } else {
                        screen_px(t0, x, y)
                    },
            decreases olds.len() - i,
        {
            proof {
                self.lemma_slots_view();
                assert(slot_ok(olds[i as int]));
            }
            let ghost t1 = self.renderer.tiles_view();
            let font: SlotFont = self.slots[i].font;
            clear_text_rect(
                &mut self.renderer,
                &font,
                self.slots[i].text.as_slice(),
                self.slots[i].start,
                self.slots[i].overflow,
                self.slots[i].alignment,
            );
            proof {
                lemma_tiles_kept_trans(t0, t1, self.renderer.tiles_view());
                assert forall|x: int, y: int| #[trigger] screen_px(self.renderer.tiles_view(), x, y) == if exists|k: int|
                    0 <= k < i + 1 && #[trigger] in_slot_clear(olds[k], spacing, line_spacing, x, y) {
                    0
                } else {
                    screen_px(t0, x, y)
                } by {
                    assert(screen_px(t1, x, y) == if exists|k: int|
                        0 <= k < i && #[trigger] in_slot_clear(olds[k], spacing, line_spacing, x, y) {
                        0
                    } else {
                        screen_px(t0, x, y)
                    });
                    if in_slot_clear(olds[i as int], spacing, line_spacing, x, y) {
                        assert(exists|k: int| 0 <= k < i + 1 && #[trigger] in_slot_clear(olds[k], spacing, line_spacing, x, y));
                    } else if exists|k: int| 0 <= k < i + 1 && #[trigger] in_slot_clear(olds[k], spacing, line_spacing, x, y) {
                        let k = choose|k: int| 0 <= k < i + 1 && #[trigger] in_slot_clear(olds[k], spacing, line_spacing, x, y);
                        assert(k < i);
                    }
                }
            }
            i = i + 1;
        }
        self.slots.clear();
        proof {
            assert(self.slots_view() =~= Seq::<SlotView>::empty());
        }
    }
}

/// A cleared stream is an inert, complete entry: nothing of it is
/// revealed, it counts as complete, a frame of updating reveals nothing and
/// changes nothing, and drawing it changes no tile.
pub proof fn law_cleared_stream_is_inert(
    s: SlotView,
    pause_frames: u8,
    punct: Seq<u8>,
    spacing: i8,
    line_spacing: i8,
    before: Seq<crate::tiles::TileRows>,
    after: Seq<crate::tiles::TileRows>,
)
    ensures
        ({
            let c = SlotView { text: Seq::empty(), revealed: 0, drawn: 0, pause: 0u8, ..s };
            &&& c.revealed == 0
            &&& c.revealed >= c.text.len()
            &&& reveal_step(c.text, c.revealed, c.counter, c.pause, c.frames, c.chars, pause_frames, punct).3 == 0
            &&& stepped(c, pause_frames, punct) == c
            &&& slot_draw_step(c, spacing, line_spacing, before, after) ==> after == before
        }),
{
}

/// Drawing a stream twice with nothing revealed in between: the second
/// draw changes no tile and leaves the stream as the first draw left it.
pub proof fn law_second_draw_is_a_no_op(
    s: SlotView,
    spacing: i8,
    line_spacing: i8,
    before: Seq<crate::tiles::TileRows>,
    after: Seq<crate::tiles::TileRows>,
)
    ensures
        ({
            let d = slot_after_draw(s, spacing, line_spacing);
            &&& d.drawn >= d.revealed
            &&& slot_after_draw(d, spacing, line_spacing) == d
            &&& slot_draw_step(d, spacing, line_spacing, before, after) ==> after == before
        }),
{
}

/// Drawing a stream reveals nothing and moves nothing: its revealed count,
/// its text's length (so whether it is complete), its reveal timing and its
/// start stay as they were.
pub proof fn law_drawing_keeps_the_reveal(s: SlotView, spacing: i8, line_spacing: i8)
    ensures
        ({
            let d = slot_after_draw(s, spacing, line_spacing);
            &&& d.revealed == s.revealed
            &&& d.text.len() == s.text.len()
            &&& (d.revealed >= d.text.len()) == (s.revealed >= s.text.len())
            &&& d.counter == s.counter && d.pause == s.pause && d.frames == s.frames && d.chars == s.chars
            &&& d.start == s.start
        }),
{
    if let TextOverflow::Wrap(w, true) = s.overflow {
        if !s.wrapped {
            lemma_wrap_in_place_only_breaks_spaces(s.font.metrics(), s.text, w as int, spacing as int, 0, 0);
        }
    }
}

} // verus!

use vstd::prelude::*;

verus! {

/// The longest text that the measuring functions accept: every width they
/// add up then fits in a `u32` (a glyph advances at most 382 pixels). The
/// bound is conservative: it is taken for the widest possible advance, so a
/// font of narrower glyphs could measure longer texts without overflow.
pub const MAX_TEXT_LEN: usize = 10_000_000;

/// The byte value of a line feed.
pub const NEWLINE: u8 = 10;

/// The byte value of a space.
pub const SPACE: u8 = 32;

/// The byte value of a hyphen.
pub const HYPHEN: u8 = 45;

/// What text measurement knows of a font: the advance widths of its glyphs
/// and the byte value of its first glyph.
pub struct GlyphMetrics {
    pub widths: Seq<u8>,
    pub offset: int,
}

impl GlyphMetrics {
    /// The font has a glyph for byte `c`.
    pub open spec fn covers(self, c: u8) -> bool {
        self.offset <= c && c - self.offset < self.widths.len()
    }

    /// Advance width of the glyph for `c`.
    pub open spec fn width(self, c: u8) -> int {
        self.widths[c - self.offset] as int
    }

    /// Every byte of `t` but line feeds has a glyph.
    pub open spec fn covers_text(self, t: Seq<u8>) -> bool {
        forall|i: int| 0 <= i < t.len() && t[i] != NEWLINE ==> #[trigger] self.covers(t[i])
    }

    /// Advance of `c` at a position in a line (no gap before the first glyph).
    pub open spec fn step(self, c: u8, spacing: int, first: bool) -> int {
        step_of(self.width(c), spacing, first)
    }

    /// Width of the first `k` bytes of `t` drawn as one line.
    pub open spec fn prefix_width(self, t: Seq<u8>, spacing: int, k: int) -> int
        decreases k,
    {
        if k <= 0 {
            0
        } else {
            self.prefix_width(t, spacing, k - 1) + self.step(t[k - 1], spacing, k - 1 == 0)
        }
    }

    /// Sum of the gapped advances of `t[a..b]`: every glyph follows another.
    pub open spec fn advance_sum(self, t: Seq<u8>, spacing: int, a: int, b: int) -> int
        decreases b - a,
    {
        if b <= a {
            0
        } else {
            self.advance_sum(t, spacing, a, b - 1) + advance_of(self.width(t[b - 1]), spacing)
        }
    }
}

/// Advance width of a glyph of width `w` followed by `spacing` pixels of gap,
/// clamped to at least one pixel.
pub open spec fn advance_of(w: int, spacing: int) -> int {
    if w + spacing >= 1 {
        w + spacing
    } else {
        1
    }
}

/// Advance of a glyph at a position in a line: the first glyph carries no gap.
pub open spec fn step_of(w: int, spacing: int, first: bool) -> int {
    if first {
        w
    } else {
        advance_of(w, spacing)
    }
}

/// Clamped advance, computed without overflow.
pub fn clamped_advance(w: u8, spacing: i8) -> (r: u32)
    ensures
        r == advance_of(w as int, spacing as int),
        1 <= r <= 382,
{
    let s: i32 = (w as i32) + (spacing as i32);
    if s >= 1 {
        s as u32
    } else {
        1
    }
}

/// Prefix widths never shrink and grow by at most 382 pixels per byte.
pub proof fn lemma_prefix_width_bounds(m: GlyphMetrics, t: Seq<u8>, spacing: int, k: int)
    requires
        -128 <= spacing <= 127,
        0 <= k <= t.len(),
        forall|i: int| 0 <= i < k ==> m.covers(#[trigger] t[i]),
    ensures
        0 <= m.prefix_width(t, spacing, k) <= 382 * k,
    decreases k,
{
    if k > 0 {
        lemma_prefix_width_bounds(m, t, spacing, k - 1);
        assert(m.covers(t[k - 1]));
    }
}

/// Gapped sums are non-negative and grow by at most 382 per byte.
pub proof fn lemma_advance_sum_bounds(m: GlyphMetrics, t: Seq<u8>, spacing: int, a: int, b: int)
    requires
        -128 <= spacing <= 127,
        0 <= a,
        b <= t.len(),
        forall|i: int| a <= i < b ==> m.covers(#[trigger] t[i]),
    ensures
        a <= b ==> b - a <= m.advance_sum(t, spacing, a, b) <= 382 * (b - a),
        b < a ==> m.advance_sum(t, spacing, a, b) == 0,
    decreases b - a,
{
    if b > a {
        lemma_advance_sum_bounds(m, t, spacing, a, b - 1);
        assert(m.covers(t[b - 1]));
    }
}

} // verus!

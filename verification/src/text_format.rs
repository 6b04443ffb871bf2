use vstd::prelude::*;

verus! {

/// Controls what happens when rendered text reaches the horizontal limit
#[derive(Debug, Copy, Clone, Eq, PartialEq, Structural)]
pub enum TextOverflow {
    /// No overflow handling; text renders until the string ends
    Nothing,
    /// Stop rendering glyphs once the cursor reaches this pixel offset from the
    /// draw origin
    Cutoff(u16),
    /// Wrap to a new line once the cursor would exceed this pixel width. If the
    /// bool is `true`, wraps at whitespace (words longer than the width still
    /// break); if `false`, breaks at the character boundary
    Wrap(u16, bool),
}

/// Horizontal alignment for a block of rendered text
#[derive(Debug, Copy, Clone, Eq, PartialEq, Structural)]
pub enum TextAlign {
    /// Align to the left edge; no column width needed
    Left,
    /// Center text within a column of the given pixel width
    Center(u16),
    /// Right-align text within a column of the given pixel width
    Right(u16),
}

/// Overflow, alignment and clear rectangle of a text draw
#[derive(Debug, Copy, Clone, Eq, PartialEq)]
pub struct TextFormat {
    pub overflow: TextOverflow,
    pub align: TextAlign,
    /// Width and height in pixels of a rectangle cleared at the draw position
    /// before drawing; `(0, 0)` disables it
    pub clear: (u16, u16),
}

impl Default for TextOverflow {
    fn default() -> (r: Self)
        ensures
            r == TextOverflow::Nothing,
    {
        TextOverflow::Nothing
    }
}

impl Default for TextAlign {
    fn default() -> (r: Self)
        ensures
            r == TextAlign::Left,
    {
        TextAlign::Left
    }
}

impl Default for TextFormat {
    fn default() -> (r: Self)
        ensures
            r == (TextFormat { overflow: TextOverflow::Nothing, align: TextAlign::Left, clear: (0u16, 0u16) }),
    {
        TextFormat { clear: (0, 0), align: TextAlign::Left, overflow: TextOverflow::Nothing }
    }
}

impl TextFormat {
    /// A format from its three parts.
    pub fn new(overflow: TextOverflow, align: TextAlign, clear: (u16, u16)) -> (r: Self)
        ensures
            r == (TextFormat { overflow, align, clear }),
    {
        Self { overflow, align, clear }
    }

    /// Word-wrapped at `px` pixels, left aligned, no clear.
    pub fn wrapped(px: u16) -> (r: Self)
        ensures
            r == (TextFormat { overflow: TextOverflow::Wrap(px, true), align: TextAlign::Left, clear: (0u16, 0u16) }),
    {
        Self::new(TextOverflow::Wrap(px, true), TextAlign::Left, (0, 0))
    }

    /// Broken at the character boundary at `px` pixels, left aligned, no clear.
    pub fn hard_wrapped(px: u16) -> (r: Self)
        ensures
            r == (TextFormat { overflow: TextOverflow::Wrap(px, false), align: TextAlign::Left, clear: (0u16, 0u16) }),
    {
        Self::new(TextOverflow::Wrap(px, false), TextAlign::Left, (0, 0))
    }

    /// Cut off at `px` pixels, left aligned, no clear.
    pub fn cutoff(px: u16) -> (r: Self)
        ensures
            r == (TextFormat { overflow: TextOverflow::Cutoff(px), align: TextAlign::Left, clear: (0u16, 0u16) }),
    {
        Self::new(TextOverflow::Cutoff(px), TextAlign::Left, (0, 0))
    }

    /// Centered in a column `column_px` wide, no overflow handling, no clear.
    pub fn centered(column_px: u16) -> (r: Self)
        ensures
            r == (TextFormat { overflow: TextOverflow::Nothing, align: TextAlign::Center(column_px), clear: (0u16, 0u16) }),
    {
        Self::new(TextOverflow::Nothing, TextAlign::Center(column_px), (0, 0))
    }

    /// Right aligned in a column `column_px` wide, no overflow handling, no clear.
    pub fn right_aligned(column_px: u16) -> (r: Self)
        ensures
            r == (TextFormat { overflow: TextOverflow::Nothing, align: TextAlign::Right(column_px), clear: (0u16, 0u16) }),
    {
        Self::new(TextOverflow::Nothing, TextAlign::Right(column_px), (0, 0))
    }

    /// The same format with a clear rectangle of `width` x `height`.
    pub fn with_clear(self, width: u16, height: u16) -> (r: Self)
        ensures
            r == (TextFormat { clear: (width, height), ..self }),
    {
        let mut f = self;
        f.clear = (width, height);
        f
    }

    /// The same format with another alignment.
    pub fn with_align(self, align: TextAlign) -> (r: Self)
        ensures
            r == (TextFormat { align, ..self }),
    {
        let mut f = self;
        f.align = align;
        f
    }

    /// The same format with another overflow handling.
    pub fn with_overflow(self, overflow: TextOverflow) -> (r: Self)
        ensures
            r == (TextFormat { overflow, ..self }),
    {
        let mut f = self;
        f.overflow = overflow;
        f
    }
}

} // verus!

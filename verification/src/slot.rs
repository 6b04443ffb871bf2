use vstd::prelude::*;
use crate::font::AgbFont;
use crate::full::FullFont;
use crate::metrics::GlyphMetrics;
use crate::printable::PrintableFont;

verus! {

/// A font of either kind, as held by a typewriter slot
#[derive(Debug, Clone, Copy)]
pub enum SlotFont {
    Printable(&'static PrintableFont),
    Full(&'static FullFont),
}

impl From<&'static PrintableFont> for SlotFont {
    fn from(font: &'static PrintableFont) -> (r: Self) {
        SlotFont::Printable(font)
    }
}

impl vstd::std_specs::convert::FromSpecImpl<&'static PrintableFont> for SlotFont {
    open spec fn obeys_from_spec() -> bool {
        true
    }

    open spec fn from_spec(font: &'static PrintableFont) -> Self {
        SlotFont::Printable(font)
    }
}

impl From<&'static FullFont> for SlotFont {
    fn from(font: &'static FullFont) -> (r: Self) {
        SlotFont::Full(font)
    }
}

impl vstd::std_specs::convert::FromSpecImpl<&'static FullFont> for SlotFont {
    open spec fn obeys_from_spec() -> bool {
        true
    }

    open spec fn from_spec(font: &'static FullFont) -> Self {
        SlotFont::Full(font)
    }
}

impl AgbFont for SlotFont {
    open spec fn metrics(&self) -> GlyphMetrics {
        match self {
            SlotFont::Printable(f) => f.metrics(),
            SlotFont::Full(f) => f.metrics(),
        }
    }

    open spec fn data_view(&self) -> Seq<u32> {
        match self {
            SlotFont::Printable(f) => f.data_view(),
            SlotFont::Full(f) => f.data_view(),
        }
    }

    open spec fn height_view(&self) -> u32 {
        match self {
            SlotFont::Printable(f) => f.height_view(),
            SlotFont::Full(f) => f.height_view(),
        }
    }

    open spec fn overhang_view(&self) -> u8 {
        match self {
            SlotFont::Printable(f) => f.overhang_view(),
            SlotFont::Full(f) => f.overhang_view(),
        }
    }

    open spec fn glyph_size_view(&self) -> usize {
        match self {
            SlotFont::Printable(f) => f.glyph_size_view(),
            SlotFont::Full(f) => f.glyph_size_view(),
        }
    }

    open spec fn row_u32s_view(&self) -> usize {
        match self {
            SlotFont::Printable(f) => f.row_u32s_view(),
            SlotFont::Full(f) => f.row_u32s_view(),
        }
    }

    fn char_widths(&self) -> &[u8] {
        match self {
            SlotFont::Printable(f) => f.char_widths(),
            SlotFont::Full(f) => f.char_widths(),
        }
    }

    fn char_offset(&self) -> usize {
        match self {
            SlotFont::Printable(f) => f.char_offset(),
            SlotFont::Full(f) => f.char_offset(),
        }
    }

    fn data(&self) -> &[u32] {
        match self {
            SlotFont::Printable(f) => f.data(),
            SlotFont::Full(f) => f.data(),
        }
    }

    fn glyph_height(&self) -> u32 {
        match self {
            SlotFont::Printable(f) => f.glyph_height(),
            SlotFont::Full(f) => f.glyph_height(),
        }
    }

    fn right_overhang(&self) -> u8 {
        match self {
            SlotFont::Printable(f) => f.right_overhang(),
            SlotFont::Full(f) => f.right_overhang(),
        }
    }

    fn glyph_size(&self) -> usize {
        match self {
            SlotFont::Printable(f) => f.glyph_size(),
            SlotFont::Full(f) => f.glyph_size(),
        }
    }

    fn row_u32s(&self) -> usize {
        match self {
            SlotFont::Printable(f) => f.row_u32s(),
            SlotFont::Full(f) => f.row_u32s(),
        }
    }
}

} // verus!

use vstd::prelude::*;
use crate::blob::{blob_ok, copy_bytes, le_u32, read_le_u32s, row_u32s_for};
use crate::font::AgbFont;
use crate::metrics::GlyphMetrics;

verus! {

/// Binary layout: 1 mode + 1 glyph_width + 1 glyph_height + 95 char_widths + 1
/// right_overhang + 1 padding = 100 bytes
pub const HEADER_PRINTABLE: usize = 100;

/// Printable ASCII: 0x20 (space) through 0x7E (tilde), 95 characters
pub const GLYPH_COUNT_PRINTABLE: usize = 95;

/// First printable ASCII byte.
pub const PRINTABLE_ASCII_START: u8 = 0x20;

/// Last printable ASCII byte.
pub const PRINTABLE_ASCII_END: u8 = 0x7E;

/// 4bpp font for gba covering the 95 printable ASCII characters (0x20–0x7E)
#[derive(Clone, Debug, Eq, PartialEq)]
pub struct PrintableFont {
    pub char_widths: Vec<u8>,
    pub data: Vec<u32>,
    pub glyph_height: u32,
    pub glyph_size: usize,
    pub row_u32s: usize,
    pub right_overhang: u8,
}

/// A valid mode-0 (printable) font blob.
pub open spec fn printable_blob_ok(b: Seq<u8>) -> bool {
    blob_ok(b, 0, HEADER_PRINTABLE as int, GLYPH_COUNT_PRINTABLE as int)
}

impl PrintableFont {
    /// The font that a valid mode-0 blob describes.
    pub open spec fn parsed_from(self, b: Seq<u8>) -> bool {
        &&& self.char_widths@ == b.subrange(3, 3 + GLYPH_COUNT_PRINTABLE as int)
        &&& self.right_overhang == b[HEADER_PRINTABLE - 2]
        &&& self.glyph_height == b[2] as u32
        &&& self.row_u32s as int == row_u32s_for(b[1] as int)
        &&& self.glyph_size as int == self.row_u32s * self.glyph_height
        &&& self.data.len() == self.glyph_size * GLYPH_COUNT_PRINTABLE
        &&& forall|i: int|
            0 <= i < self.data.len() ==> #[trigger] self.data@[i] as int == le_u32(
                b,
                HEADER_PRINTABLE + 4 * i,
            )
    }

    /// Parse a mode-0 binary font blob: the header gives the cell size, the
    /// advance widths and the overhang, and the pixel data follows it
    pub fn from_static_bytes(bytes: &[u8]) -> (r: Self)
        requires
            printable_blob_ok(bytes@),
        ensures
            r.parsed_from(bytes@),
    {
        let glyph_width = bytes[1];
        let glyph_height = bytes[2] as u32;
        let row_u32s = (glyph_width as usize + 7) / 8;
        let char_widths = copy_bytes(bytes, 3, GLYPH_COUNT_PRINTABLE);
        let right_overhang = bytes[HEADER_PRINTABLE - 2];
        let glyph_size = row_u32s * glyph_height as usize;
        let data_len = bytes.len() - HEADER_PRINTABLE;
        proof {
            assert(data_len == glyph_size * 95 * 4);
            assert(glyph_size * 95 * 4 == 4 * (glyph_size * 95)) by (nonlinear_arith);
        }
        let data = read_le_u32s(bytes, HEADER_PRINTABLE, glyph_size * GLYPH_COUNT_PRINTABLE);
        PrintableFont { char_widths, data, glyph_height, glyph_size, row_u32s, right_overhang }
    }
}

impl AgbFont for PrintableFont {
    open spec fn metrics(&self) -> GlyphMetrics {
        GlyphMetrics { widths: self.char_widths@, offset: PRINTABLE_ASCII_START as int }
    }

    open spec fn data_view(&self) -> Seq<u32> {
        self.data@
    }

    open spec fn height_view(&self) -> u32 {
        self.glyph_height
    }

    open spec fn overhang_view(&self) -> u8 {
        self.right_overhang
    }

    open spec fn glyph_size_view(&self) -> usize {
        self.glyph_size
    }

    open spec fn row_u32s_view(&self) -> usize {
        self.row_u32s
    }

    fn char_widths(&self) -> &[u8] {
        self.char_widths.as_slice()
    }

    fn char_offset(&self) -> usize {
        32
    }

    fn data(&self) -> &[u32] {
        self.data.as_slice()
    }

    fn glyph_height(&self) -> u32 {
        self.glyph_height
    }

    fn right_overhang(&self) -> u8 {
        self.right_overhang
    }

    fn glyph_size(&self) -> usize {
        self.glyph_size
    }

    fn row_u32s(&self) -> usize {
        self.row_u32s
    }
}

} // verus!

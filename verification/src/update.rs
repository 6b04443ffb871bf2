use vstd::prelude::*;
use crate::blob::le_u32;
use crate::common::{check_sheet_fits, fixed_grid, lemma_plain_pixels, sheet_fits, SHEET_COLS};
use crate::create::{blob_pixels_ok, data_matches_sheet, le_byte, lemma_le_bytes_roundtrip, recolor_map};
use crate::edit::{file_error, header_of, read_header, FontFileError, FontHeader};
use crate::full::{GLYPH_COUNT_FULL, HEADER_FULL};
use crate::parsing::{extract_glyph_data, glyph_row_base, px_at, SheetImage};
use crate::printable::HEADER_PRINTABLE;

verus! {

/// Why a font file's pixels cannot be replaced from a sheet.
#[derive(Clone, Copy, Debug, PartialEq, Eq, Structural)]
pub enum UpdateError {
    /// The font file itself is unreadable.
    File(FontFileError),
    /// The file stores a cell height of 0.
    ZeroCellHeight,
    /// The sheet gives a font of the other mode (the sheet's mode byte).
    ModeMismatch(u8),
    /// The sheet is smaller than 16 x 6 cells of the file's cell size.
    SheetTooSmall,
}

/// Offset of the pixel data in a font file of the given mode.
pub open spec fn pixel_offset(mode_byte: u8) -> int {
    if mode_byte == 1 {
        HEADER_FULL as int
    } else {
        HEADER_PRINTABLE as int
    }
}

/// Which check, if any, rejects replacing the pixels of the font file
/// `bytes` from `img`: an unreadable file, a zero cell height, a sheet of
/// the other mode, a sheet too small for the cells.
pub open spec fn update_error(bytes: Seq<u8>, img: SheetImage) -> Option<UpdateError> {
    let fe = file_error(bytes, HEADER_PRINTABLE, HEADER_FULL);
    let h = header_of(bytes);
    let grid = fixed_grid(img, h.cell_width, h.cell_height);
    if fe is Some {
        Some(UpdateError::File(fe->0))
    } else if h.cell_height == 0 {
        Some(UpdateError::ZeroCellHeight)
    } else if grid.mode_byte != h.mode_byte {
        Some(UpdateError::ModeMismatch(grid.mode_byte))
    } else if !sheet_fits(img, h.cell_width, h.cell_height) {
        Some(UpdateError::SheetTooSmall)
    } else {
        None
    }
}

/// Reads the header of a font file whose pixels are to be replaced: the file
/// must hold everything that comes before the pixel data
pub fn pixels_header(bytes: &[u8]) -> (r: Result<FontHeader, FontFileError>)
    ensures
        match r {
            Ok(h) => file_error(bytes@, HEADER_PRINTABLE, HEADER_FULL) is None && h == header_of(bytes@),
            Err(e) => file_error(bytes@, HEADER_PRINTABLE, HEADER_FULL) == Some(e),
        },
{
    read_header(bytes, HEADER_PRINTABLE, HEADER_FULL)
}

/// Replaces the pixel data of a font file with the glyphs of a sheet of the
/// same cell size, keeping the header and the widths
///
/// The file is resized to exactly hold the sheet's pixel data (the result
/// says whether it had to be); on an error the file is left as it was
pub fn update_pixel_data(bytes: &mut Vec<u8>, img: &SheetImage) -> (r: Result<bool, UpdateError>)
    requires
        img.wf(),
    ensures
        match r {
            Ok(resized) => update_error(old(bytes)@, *img) is None && {
                let h = header_of(old(bytes)@);
                let grid = fixed_grid(*img, h.cell_width, h.cell_height);
                let off = pixel_offset(h.mode_byte);
                let total = off + 4 * (grid.glyph_count * h.cell_height * ((h.cell_width as int + 7) / 8));
                &&& resized == (old(bytes)@.len() != total)
                &&& final(bytes)@.len() == total
                &&& final(bytes)@.subrange(0, off) == old(bytes)@.subrange(0, off)
                &&& blob_pixels_ok(final(bytes)@, off, *img, grid, 0, recolor_map(Seq::empty()))
            },
            Err(e) => update_error(old(bytes)@, *img) == Some(e) && final(bytes)@ == old(bytes)@,
        },
{
    let ghost orig = bytes@;
    let header: FontHeader = if bytes.len() < 3 {
        return Err(UpdateError::File(FontFileError::TooShort));
    } else {
        let mode_byte = bytes[0];
        if mode_byte > 1 {
            return Err(UpdateError::File(FontFileError::UnknownMode(mode_byte)));
        }
        let (glyph_count, offset): (usize, usize) = if mode_byte == 1 {
            (GLYPH_COUNT_FULL, HEADER_FULL)
        } else {
            (crate::printable::GLYPH_COUNT_PRINTABLE, HEADER_PRINTABLE)
        };
        if bytes.len() < offset {
            return Err(UpdateError::File(FontFileError::TooShortFor(offset)));
        }
        FontHeader { mode_byte, cell_width: bytes[1], cell_height: bytes[2], glyph_count }
    };
    assert(header == header_of(orig));
    let cw = header.cell_width;
    let ch = header.cell_height;
    if ch == 0 {
        return Err(UpdateError::ZeroCellHeight);
    }
    let cell_rows = img.height / ch as u32;
    let img_mode: u8 = if cell_rows as u64 * SHEET_COLS as u64 >= GLYPH_COUNT_FULL as u64 {
        1
    } else {
        0
    };
    let ghost grid = fixed_grid(*img, cw, ch);
    assert(grid.mode_byte == img_mode);
    if img_mode != header.mode_byte {
        return Err(UpdateError::ModeMismatch(img_mode));
    }
    if !check_sheet_fits(img, cw, ch) {
        return Err(UpdateError::SheetTooSmall);
    }
    let glyph_count = header.glyph_count;
    let offset: usize = if header.mode_byte == 1 {
        HEADER_FULL
    } else {
        HEADER_PRINTABLE
    };
    let ru = (cw as usize + 7) / 8;
    proof {
        if glyph_count == GLYPH_COUNT_FULL {
            assert((glyph_count + 16 - 1) / 16 == 16);
            assert(ch * 16 <= img.height) by (nonlinear_arith)
                requires
                    cell_rows * 16 >= 256,
                    cell_rows == img.height as int / (ch as int),
                    ch > 0,
            ;
        } else {
            assert((glyph_count + 16 - 1) / 16 == 6);
        }
        assert(glyph_count * (ru * ch) <= 256 * (32 * 255)) by (nonlinear_arith)
            requires
                glyph_count <= 256,
                ru <= 32,
                ch <= 255,
        ;
    }
    let data = extract_glyph_data(img, cw, ch, SHEET_COLS, glyph_count);
    proof {
        assert(data_matches_sheet(data@, *img, grid));
        lemma_plain_pixels(data@, *img, grid);
        assert(glyph_count * (ru * ch) == glyph_count * ch * ru) by (nonlinear_arith);
    }
    let total = offset + 4 * data.len();
    let resized = bytes.len() != total;
    if resized {
        bytes.resize(total, 0);
    }
    assert(bytes@.subrange(0, offset as int) =~= orig.subrange(0, offset as int));
    let mut i: usize = 0;
    while i < data.len()
        invariant
            0 <= i <= data.len(),
            total == offset + 4 * data.len(),
            bytes@.len() == total,
            bytes@.subrange(0, offset as int) == orig.subrange(0, offset as int),
            forall|j: int, k: int|
                0 <= j < i && 0 <= k < 4 ==> #[trigger] bytes@[offset + 4 * j + k] == le_byte(data@[j], k),
        decreases data.len() - i,
    {
        let w = data[i];
        let pos = offset + 4 * i;
        let ghost before = bytes@;
        bytes.set(pos, (w & 0xff) as u8);
        bytes.set(pos + 1, ((w >> 8) & 0xff) as u8);
        bytes.set(pos + 2, ((w >> 16) & 0xff) as u8);
        bytes.set(pos + 3, ((w >> 24) & 0xff) as u8);
        proof {
            assert forall|j: int, k: int| 0 <= j < i + 1 && 0 <= k < 4 implies #[trigger] bytes@[offset + 4 * j + k]
                == le_byte(data@[j], k) by {
                if j < i {
                    assert(bytes@[offset + 4 * j + k] == before[offset + 4 * j + k]);
                }
            }
            assert(bytes@.subrange(0, offset as int) =~= before.subrange(0, offset as int));
        }
        i = i + 1;
    }
    proof {
        let ru2 = (cw as int + 7) / 8;
        assert forall|g: int, row: int, x: int|
            0 <= g < grid.glyph_count && 0 <= row < grid.cell_height && 0 <= x < 8 * ru2 implies #[trigger] crate::pixels::nib(
                le_u32(bytes@, offset + 4 * (glyph_row_base(g, row, grid.cell_height as int, ru2) + x / 8)) as u32,
                (x % 8) as u32,
            ) == crate::create::packed_px(*img, grid, 0, recolor_map(Seq::empty()), g, row, x) by {
            let idx = glyph_row_base(g, row, ch as int, ru2) + x / 8;
            assert(0 <= g * ch + row < glyph_count * ch) by (nonlinear_arith)
                requires
                    0 <= g < glyph_count,
                    0 <= row < ch,
            ;
            assert(0 <= (g * ch + row) * ru2 + x / 8 < glyph_count * ch * ru2) by (nonlinear_arith)
                requires
                    0 <= g * ch + row < glyph_count * ch,
                    0 <= x / 8 < ru2,
            ;
            assert(bytes@[offset + 4 * idx + 0] == le_byte(data@[idx], 0));
            assert(bytes@[offset + 4 * idx + 1] == le_byte(data@[idx], 1));
            assert(bytes@[offset + 4 * idx + 2] == le_byte(data@[idx], 2));
            assert(bytes@[offset + 4 * idx + 3] == le_byte(data@[idx], 3));
            lemma_le_bytes_roundtrip(data@[idx]);
            assert(px_at(data@, glyph_row_base(g, row, ch as int, ru2), x) == crate::create::packed_px(
                *img,
                grid,
                0,
                recolor_map(Seq::empty()),
                g,
                row,
                x,
            ));
        }
    }
    Ok(resized)
}

} // verus!

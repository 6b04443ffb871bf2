use vstd::prelude::*;
use crate::create::{
    apply_monospace, apply_width_overrides, bold_px, data_matches_sheet, font_blob, font_bytes, lemma_apply_overrides_len,
    lemma_font_blob, lemma_ink_extent_agree, measure_widths, monospace_widths, packed_px, recolor_map, sheet_row,
    sheet_widths, data_glyph, sheet_glyph, SheetGrid,
};
use crate::full::GLYPH_COUNT_FULL;
use crate::parsing::{extract_glyph_data, glyph_row_base, px_at, sheet_px, smear_max, SheetImage};
use crate::printable::GLYPH_COUNT_PRINTABLE;

verus! {

/// Columns of every sheet that the command-line tools read.
pub const SHEET_COLS: usize = 16;

/// The grid of a 16-column sheet with cells of the given size: as many rows
/// as fit in the image; 256 glyphs (full mode) from 16 rows up, else 95.
pub open spec fn fixed_grid(img: SheetImage, cell_width: u8, cell_height: u8) -> SheetGrid {
    let rows = img.height as int / cell_height as int;
    let full = rows * SHEET_COLS >= GLYPH_COUNT_FULL;
    SheetGrid {
        cols: SHEET_COLS as u32,
        rows: rows as u32,
        cell_width,
        cell_height,
        glyph_count: if full {
            GLYPH_COUNT_FULL
        } else {
            GLYPH_COUNT_PRINTABLE
        },
        mode_byte: if full {
            1u8
        } else {
            0u8
        },
    }
}

/// A sheet holds a small font's 16 x 6 cells of the given size (a full font
/// has 16 rows or more, so it holds them too).
pub open spec fn sheet_fits(img: SheetImage, cell_width: u8, cell_height: u8) -> bool {
    &&& cell_height > 0
    &&& cell_width * SHEET_COLS <= img.width
    &&& cell_height * 6 <= img.height
}

/// Whether `sheet_fits` holds.
pub fn check_sheet_fits(img: &SheetImage, cell_width: u8, cell_height: u8) -> (r: bool)
    ensures
        r == sheet_fits(*img, cell_width, cell_height),
{
    cell_height > 0 && (cell_width as u64) * 16 <= img.width as u64 && (cell_height as u64) * 6 <= img.height as u64
}

/// Palette indices are bands 0..=15.
proof fn lemma_sheet_px_band(img: SheetImage, grid: SheetGrid, g: int, row: int, x: int)
    ensures
        sheet_px(&img, grid.cell_width as int, grid.cell_height as int, grid.cols as int, g, row, x) < 16,
{
}

/// Packed sheet data, unstyled, holds the packed pixels of a request without
/// bold or recolor.
pub proof fn lemma_plain_pixels(data: Seq<u32>, img: SheetImage, grid: SheetGrid)
    requires
        data_matches_sheet(data, img, grid),
    ensures
        forall|g: int, row: int, x: int|
            0 <= g < grid.glyph_count && 0 <= row < grid.cell_height && 0 <= x < 8 * ((grid.cell_width as int + 7)
                / 8) ==> #[trigger] px_at(
                data,
                glyph_row_base(g, row, grid.cell_height as int, (grid.cell_width as int + 7) / 8),
                x,
            ) == packed_px(img, grid, 0, recolor_map(Seq::<(u8, u8)>::empty()), g, row, x),
{
    let table = recolor_map(Seq::<(u8, u8)>::empty());
    let ru = (grid.cell_width as int + 7) / 8;
    assert forall|g: int, row: int, x: int|
        0 <= g < grid.glyph_count && 0 <= row < grid.cell_height && 0 <= x < 8 * ru implies #[trigger] px_at(
            data,
            glyph_row_base(g, row, grid.cell_height as int, ru),
            x,
        ) == packed_px(img, grid, 0, table, g, row, x) by {
        let v = sheet_px(&img, grid.cell_width as int, grid.cell_height as int, grid.cols as int, g, row, x);
        lemma_sheet_px_band(img, grid, g, row, x);
        if x < grid.cell_width {
            assert(smear_max(sheet_row(img, grid, g, row), x, 0, 0) == v);
        }
        assert(bold_px(img, grid, 0, g, row, x) == v);
        assert(table[v as int] == v);
    }
}

/// Packs a 16-column sheet with cells of the given size into a font blob
/// without styling: the widths are measured from the sheet, then `monospace`
/// and the overrides apply (an override outside the font is skipped)
pub fn create_bytes(
    cell_width: u8,
    cell_height: u8,
    img: &SheetImage,
    monospace: Option<Option<u8>>,
    width_overrides: &[(u8, u8)],
) -> (r: Vec<u8>)
    requires
        img.wf(),
        sheet_fits(*img, cell_width, cell_height),
    ensures
        font_blob(r@, *img, fixed_grid(*img, cell_width, cell_height), monospace, width_overrides@, 0, Seq::empty()),
{
    let cell_rows = img.height / cell_height as u32;
    let (glyph_count, mode_byte): (usize, u8) = if cell_rows as u64 * SHEET_COLS as u64 >= GLYPH_COUNT_FULL as u64 {
        (GLYPH_COUNT_FULL, 1)
    } else {
        (GLYPH_COUNT_PRINTABLE, 0)
    };
    let ghost grid = fixed_grid(*img, cell_width, cell_height);
    let ru = (cell_width as usize + 7) / 8;
    proof {
        assert(grid.glyph_count == glyph_count && grid.mode_byte == mode_byte);
        if glyph_count == GLYPH_COUNT_FULL {
            assert(cell_height * 16 <= img.height) by (nonlinear_arith)
                requires
                    cell_rows * 16 >= 256,
                    cell_rows == img.height as int / (cell_height as int),
                    cell_height > 0,
            ;
            assert((glyph_count + 16 - 1) / 16 == 16);
        } else {
            assert((glyph_count + 16 - 1) / 16 == 6);
        }
        assert(glyph_count * (ru * cell_height) <= 256 * (32 * 255)) by (nonlinear_arith)
            requires
                glyph_count <= 256,
                ru <= 32,
                cell_height <= 255,
        ;
    }
    let data = extract_glyph_data(img, cell_width, cell_height, SHEET_COLS, glyph_count);
    proof {
        assert(data_matches_sheet(data@, *img, grid));
    }
    let mut widths = measure_widths(&data, cell_width, cell_height, glyph_count);
    proof {
        assert forall|g: int| 0 <= g < glyph_count implies #[trigger] widths@[g] == sheet_widths(*img, grid)[g] by {
            assert forall|row: int, x: int| 0 <= row < cell_height && 0 <= x < cell_width implies #[trigger] data_glyph(
                data@,
                ru as int,
                cell_height as int,
                g,
            )(row, x) == sheet_glyph(*img, cell_width as int, cell_height as int, 16, g)(row, x) by {
                assert(px_at(data@, glyph_row_base(g, row, cell_height as int, ru as int), x) == sheet_px(
                    img,
                    cell_width as int,
                    cell_height as int,
                    16,
                    g,
                    row,
                    x,
                ));
            }
            lemma_ink_extent_agree(
                data_glyph(data@, ru as int, cell_height as int, g),
                sheet_glyph(*img, cell_width as int, cell_height as int, 16, g),
                cell_height as int,
                cell_width as int,
            );
        }
        assert(widths@ =~= sheet_widths(*img, grid));
    }
    apply_monospace(&mut widths, monospace);
    apply_width_overrides(&mut widths, width_overrides, mode_byte == 1);
    proof {
        lemma_apply_overrides_len(monospace_widths(sheet_widths(*img, grid), monospace), width_overrides@, mode_byte == 1);
        lemma_plain_pixels(data@, *img, grid);
        assert(glyph_count * (ru * cell_height) == glyph_count * cell_height * ru) by (nonlinear_arith);
    }
    let bytes = font_bytes(mode_byte, cell_width, cell_height, &widths, 0, &data);
    proof {
        lemma_font_blob(bytes@, data@, *img, grid, monospace, width_overrides@, 0, Seq::empty(), widths@);
    }
    bytes
}

} // verus!

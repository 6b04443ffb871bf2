use vstd::prelude::*;
use crate::full::GLYPH_COUNT_FULL;
use crate::blob::le_u32;
use crate::parsing::{
    apply_recolour, apply_style, band_shift, extract_glyph_data, glyph_row_base, law_recolour_maps_each_pixel,
    lemma_smear_max_agree, px_at, recolour_word, sheet_px, smear_max, styled_px, styled_row_ok, SheetImage,
};
use crate::pixels::{lemma_zero_word, nib};
use crate::printable::GLYPH_COUNT_PRINTABLE;

verus! {

/// Columns of a sheet when no grid is given.
pub const DEFAULT_COLS: u32 = 16;

/// Rows of a small-font sheet when no grid is given.
pub const DEFAULT_ROWS_SMALL: u32 = 6;

/// Rows of a full-font sheet (`full`).
pub const DEFAULT_ROWS_FULL: u32 = 16;

/// Why a sheet cannot be packed into a font.
#[derive(Clone, Copy, Debug, PartialEq, Eq, Structural)]
pub enum CreateError {
    /// The grid has no columns or no rows.
    EmptyGrid,
    /// The image width does not divide into the grid's columns.
    WidthNotDivisible,
    /// The image height does not divide into the grid's rows.
    HeightNotDivisible,
    /// The grid leaves no pixels per cell.
    NoPixelsPerCell,
    /// A cell is wider or taller than the 255px the format can store.
    CellTooLarge,
    /// The grid has fewer cells than a small font needs.
    TooFewCells,
    /// Every glyph of the sheet converts to transparent pixels.
    AllGlyphsEmpty,
    /// A width override names a code point a small font does not hold.
    OverrideOutOfRange,
    /// The cell widened by `bold` no longer fits in 255px.
    BoldTooWide,
    /// A recolor map tries to recolor band 0, the transparent background.
    RecolorBackground,
    /// A recolor band is not a palette index (0..=15).
    RecolorBandOutOfRange,
}

/// A sheet's cell grid, resolved against the image it describes
///
/// The grid is the only thing that ties pixels to glyphs: cell dimensions are
/// the image dimensions divided by the grid, and the font mode follows from
/// the cell count
#[derive(Clone, Copy, Debug, PartialEq, Eq, Structural)]
pub struct SheetGrid {
    pub cols: u32,
    pub rows: u32,
    pub cell_width: u8,
    pub cell_height: u8,
    /// 95 for a small font, 256 for a full one
    pub glyph_count: usize,
    /// 0 for a small font, 1 for a full one
    pub mode_byte: u8,
}

/// Which check, if any, rejects a `cols` x `rows` grid over an image of
/// `width` x `height` pixels (checked in this order).
pub open spec fn grid_error(width: int, height: int, cols: int, rows: int) -> Option<CreateError> {
    if cols == 0 || rows == 0 {
        Some(CreateError::EmptyGrid)
    } else if width % cols != 0 {
        Some(CreateError::WidthNotDivisible)
    } else if height % rows != 0 {
        Some(CreateError::HeightNotDivisible)
    } else if width / cols == 0 || height / rows == 0 {
        Some(CreateError::NoPixelsPerCell)
    } else if width / cols > 255 || height / rows > 255 {
        Some(CreateError::CellTooLarge)
    } else if cols * rows < GLYPH_COUNT_PRINTABLE {
        Some(CreateError::TooFewCells)
    } else {
        None
    }
}

/// The grid that a `cols` x `rows` layout of an image of `width` x `height`
/// pixels resolves to, when `grid_error` finds nothing: 256 glyphs (full
/// mode) from 256 cells up, else 95 (small mode).
pub open spec fn grid_of(width: int, height: int, cols: u32, rows: u32) -> SheetGrid {
    let full = cols * rows >= GLYPH_COUNT_FULL;
    SheetGrid {
        cols,
        rows,
        cell_width: (width / cols as int) as u8,
        cell_height: (height / rows as int) as u8,
        glyph_count: if full {
            GLYPH_COUNT_FULL
        } else {
            GLYPH_COUNT_PRINTABLE
        },
        mode_byte: if full {
            1u8
        } else {
            0u8
        },
    }
}

impl SheetGrid {
    /// Resolves a `cols` x `rows` grid against the sheet image; errors name
    /// the first check that fails (see `grid_error`).
    pub fn resolve(img: &SheetImage, cols: u32, rows: u32) -> (r: Result<Self, CreateError>)
        ensures
            match r {
                Ok(g) => grid_error(img.width as int, img.height as int, cols as int, rows as int) is None
                    && g == grid_of(img.width as int, img.height as int, cols, rows),
                Err(e) => grid_error(img.width as int, img.height as int, cols as int, rows as int) == Some(e),
            },
    {
        if cols == 0 || rows == 0 {
            return Err(CreateError::EmptyGrid);
        }
        let img_width = img.width;
        let img_height = img.height;
        if img_width % cols != 0 {
            return Err(CreateError::WidthNotDivisible);
        }
        if img_height % rows != 0 {
            return Err(CreateError::HeightNotDivisible);
        }
        let cell_width = img_width / cols;
        let cell_height = img_height / rows;
        if cell_width == 0 || cell_height == 0 {
            return Err(CreateError::NoPixelsPerCell);
        }
        if cell_width > 255 || cell_height > 255 {
            return Err(CreateError::CellTooLarge);
        }
        let c64 = cols as u64;
        let r64 = rows as u64;
        assert(c64 * r64 <= 0xffff_ffff * 0xffff_ffff) by (nonlinear_arith)
            requires
                c64 <= 0xffff_ffff,
                r64 <= 0xffff_ffff,
        ;
        let cells = c64 * r64;
        let (glyph_count, mode_byte): (usize, u8) = if cells >= GLYPH_COUNT_FULL as u64 {
            (GLYPH_COUNT_FULL, 1)
        } else {
            (GLYPH_COUNT_PRINTABLE, 0)
        };
        if cells < GLYPH_COUNT_PRINTABLE as u64 {
            return Err(CreateError::TooFewCells);
        }
        Ok(SheetGrid {
            cols,
            rows,
            cell_width: cell_width as u8,
            cell_height: cell_height as u8,
            glyph_count,
            mode_byte,
        })
    }
}

/// Pixel `(row, x)` of glyph `g` in packed glyph data with cells `ch` rows
/// tall and `ru` words wide.
pub open spec fn data_glyph(data: Seq<u32>, ru: int, ch: int, g: int) -> spec_fn(int, int) -> u32 {
    |row: int, x: int| px_at(data, glyph_row_base(g, row, ch, ru), x)
}

/// Pixel `(row, x)` of glyph `g` as the sheet draws it.
pub open spec fn sheet_glyph(img: SheetImage, cw: int, ch: int, cols: int, g: int) -> spec_fn(int, int) -> u32 {
    |row: int, x: int| sheet_px(&img, cw, ch, cols, g, row, x)
}

/// Some row `0..ch` of the glyph has a non-transparent pixel in column `x`.
pub open spec fn column_inked(glyph: spec_fn(int, int) -> u32, ch: int, x: int) -> bool {
    exists|row: int| 0 <= row < ch && #[trigger] glyph(row, x) != 0
}

/// One past the rightmost inked column among the first `n`, 0 when none is.
pub open spec fn ink_extent(glyph: spec_fn(int, int) -> u32, ch: int, n: int) -> int
    decreases n,
{
    if n <= 0 {
        0
    } else if column_inked(glyph, ch, n - 1) {
        n
    } else {
        ink_extent(glyph, ch, n - 1)
    }
}

/// Advance width of a glyph in a cell `cw` pixels wide: its rightmost inked
/// column plus one, or 1 for an empty glyph.
pub open spec fn advance_width(glyph: spec_fn(int, int) -> u32, cw: int, ch: int) -> int {
    let e = ink_extent(glyph, ch, cw);
    if e == 0 {
        1
    } else {
        e
    }
}

proof fn lemma_ink_extent_bounds(glyph: spec_fn(int, int) -> u32, ch: int, n: int)
    ensures
        0 <= ink_extent(glyph, ch, n) <= if n < 0 { 0 } else { n },
    decreases n,
{
    if n > 0 {
        lemma_ink_extent_bounds(glyph, ch, n - 1);
    }
}

/// Glyphs whose pixels agree on the cell have the same ink extent.
pub proof fn lemma_ink_extent_agree(g1: spec_fn(int, int) -> u32, g2: spec_fn(int, int) -> u32, ch: int, n: int)
    requires
        forall|row: int, x: int| 0 <= row < ch && 0 <= x < n ==> #[trigger] g1(row, x) == g2(row, x),
    ensures
        ink_extent(g1, ch, n) == ink_extent(g2, ch, n),
    decreases n,
{
    if n > 0 {
        assert(column_inked(g1, ch, n - 1) == column_inked(g2, ch, n - 1)) by {
            if column_inked(g1, ch, n - 1) {
                let row = choose|row: int| 0 <= row < ch && #[trigger] g1(row, n - 1) != 0;
                assert(g2(row, n - 1) != 0);
            }
            if column_inked(g2, ch, n - 1) {
                let row = choose|row: int| 0 <= row < ch && #[trigger] g2(row, n - 1) != 0;
                assert(g1(row, n - 1) != 0);
            }
        }
        lemma_ink_extent_agree(g1, g2, ch, n - 1);
    }
}

/// Whether column `x` of glyph `g` holds ink in some row.
fn column_has_ink(data: &[u32], row_u32s: usize, cell_height: usize, g: usize, x: usize) -> (r: bool)
    requires
        x < 8 * row_u32s,
        (g + 1) * cell_height * row_u32s <= data.len(),
    ensures
        r == column_inked(data_glyph(data@, row_u32s as int, cell_height as int, g as int), cell_height as int, x as int),
{
    let ghost glyph = data_glyph(data@, row_u32s as int, cell_height as int, g as int);
    let mut row: usize = 0;
    while row < cell_height
        invariant
            0 <= row <= cell_height,
            x < 8 * row_u32s,
            (g + 1) * cell_height * row_u32s <= data.len(),
            glyph == data_glyph(data@, row_u32s as int, cell_height as int, g as int),
            forall|r2: int| 0 <= r2 < row ==> #[trigger] glyph(r2, x as int) == 0,
        decreases cell_height - row,
    {
        proof {
            assert((g * cell_height + row) * row_u32s + x / 8 < (g + 1) * cell_height * row_u32s) by (nonlinear_arith)
                requires
                    row < cell_height,
                    x / 8 < row_u32s,
            ;
            assert(g * cell_height + row <= (g * cell_height + row) * row_u32s) by (nonlinear_arith)
                requires
                    x / 8 < row_u32s,
                    0 <= g * cell_height + row,
            ;
        }
        let base = (g * cell_height + row) * row_u32s;
        let w = data[base + x / 8];
        let v = (w >> ((x % 8) as u32 * 4)) & 0xF;
        assert(v == nib(w, (x % 8) as u32));
        assert(glyph(row as int, x as int) == v);
        if v != 0 {
            return true;
        }
        row = row + 1;
    }
    false
}

/// Advance width of every glyph in packed glyph data: the rightmost inked
/// column plus one, 1 for an empty glyph.
pub fn measure_widths(data: &[u32], cell_width: u8, cell_height: u8, glyph_count: usize) -> (r: Vec<u8>)
    requires
        glyph_count * (((cell_width as int + 7) / 8) * cell_height) <= data.len(),
    ensures
        r.len() == glyph_count,
        forall|g: int|
            0 <= g < glyph_count ==> #[trigger] r@[g] as int == advance_width(
                data_glyph(data@, (cell_width as int + 7) / 8, cell_height as int, g),
                cell_width as int,
                cell_height as int,
            ),
{
    let cw = cell_width as usize;
    let ch = cell_height as usize;
    let row_u32s = (cw + 7) / 8;
    let mut widths: Vec<u8> = Vec::with_capacity(glyph_count);
    let mut g: usize = 0;
    while g < glyph_count
        invariant
            0 <= g <= glyph_count,
            cw == cell_width,
            ch == cell_height,
            row_u32s == (cw + 7) / 8,
            glyph_count * (row_u32s * ch) <= data.len(),
            widths.len() == g,
            forall|g2: int|
                0 <= g2 < g ==> #[trigger] widths@[g2] as int == advance_width(
                    data_glyph(data@, row_u32s as int, ch as int, g2),
                    cw as int,
                    ch as int,
                ),
        decreases glyph_count - g,
    {
        proof {
            assert((g + 1) * ch * row_u32s <= glyph_count * (row_u32s * ch)) by (nonlinear_arith)
                requires
                    g < glyph_count,
            ;
        }
        let ghost glyph = data_glyph(data@, row_u32s as int, ch as int, g as int);
        let mut x: usize = cw;
        let mut found = false;
        while x > 0 && !found
            invariant
                0 <= x <= cw,
                cw == cell_width,
                row_u32s == (cw + 7) / 8,
                (g + 1) * ch * row_u32s <= data.len(),
                glyph == data_glyph(data@, row_u32s as int, ch as int, g as int),
                ink_extent(glyph, ch as int, cw as int) == ink_extent(glyph, ch as int, x as int),
                found ==> x > 0 && column_inked(glyph, ch as int, x - 1),
            decreases x + if found { 0int } else { 1int },
        {
            if column_has_ink(data, row_u32s, ch, g, x - 1) {
                found = true;
            } else {
                x = x - 1;
            }
        }
        proof {
            lemma_ink_extent_bounds(glyph, ch as int, x as int);
        }
        let w: u8 = if x == 0 { 1 } else { x as u8 };
        widths.push(w);
        g = g + 1;
    }
    widths
}

/// The widest of the widths, 0 for none.
pub open spec fn max_width(s: Seq<u8>) -> u8
    decreases s.len(),
{
    if s.len() == 0 {
        0
    } else {
        let m = max_width(s.drop_last());
        if s.last() > m {
            s.last()
        } else {
            m
        }
    }
}

/// The widths after `monospace`: unchanged for `None`, all `px` for
/// `Some(Some(px))`, all the widest for `Some(None)`.
pub open spec fn monospace_widths(widths: Seq<u8>, monospace: Option<Option<u8>>) -> Seq<u8> {
    match monospace {
        None => widths,
        Some(Some(px)) => Seq::new(widths.len(), |i: int| px),
        Some(None) => Seq::new(widths.len(), |i: int| max_width(widths)),
    }
}

/// The widest width is at least every width and is one of them.
pub proof fn lemma_max_width_is_max(s: Seq<u8>)
    ensures
        forall|i: int| 0 <= i < s.len() ==> #[trigger] s[i] <= max_width(s),
        s.len() > 0 ==> exists|i: int| 0 <= i < s.len() && #[trigger] s[i] == max_width(s),
    decreases s.len(),
{
    if s.len() > 0 {
        lemma_max_width_is_max(s.drop_last());
        if s.last() > max_width(s.drop_last()) {
            assert(s[s.len() - 1] == max_width(s));
        } else if s.len() > 1 {
            let j = choose|i: int| 0 <= i < s.drop_last().len() && #[trigger] s.drop_last()[i] == max_width(s.drop_last());
            assert(s[j] == s.drop_last()[j]);
            assert(s[j] == max_width(s));
        } else {
            assert(max_width(s.drop_last()) == 0);
            assert(s[0] == max_width(s));
        }
        assert forall|i: int| 0 <= i < s.len() implies #[trigger] s[i] <= max_width(s) by {
            if i < s.len() - 1 {
                assert(s[i] == s.drop_last()[i]);
            }
        }
    }
}

/// Sets every width to the same value as `monospace` asks (see
/// `monospace_widths`).
pub fn apply_monospace(widths: &mut Vec<u8>, monospace: Option<Option<u8>>)
    ensures
        final(widths)@ == monospace_widths(old(widths)@, monospace),
{
    let ghost orig = widths@;
    let mono: u8 = match monospace {
        None => {
            return ;
        },
        Some(Some(px)) => px,
        Some(None) => {
            let mut m: u8 = 0;
            let mut i: usize = 0;
            while i < widths.len()
                invariant
                    0 <= i <= widths.len(),
                    widths@ == orig,
                    m == max_width(orig.subrange(0, i as int)),
                decreases widths.len() - i,
            {
                assert(orig.subrange(0, i + 1).drop_last() =~= orig.subrange(0, i as int));
                if widths[i] > m {
                    m = widths[i];
                }
                i = i + 1;
            }
            assert(orig.subrange(0, orig.len() as int) =~= orig);
            m
        },
    };
    let mut i: usize = 0;
    while i < widths.len()
        invariant
            0 <= i <= widths.len(),
            widths@.len() == orig.len(),
            forall|j: int| 0 <= j < i ==> #[trigger] widths@[j] == mono,
        decreases widths.len() - i,
    {
        widths.set(i, mono);
        i = i + 1;
    }
    assert(widths@ =~= monospace_widths(orig, monospace));
}

/// Glyph slot of a width override's code point: the code point itself in a
/// full font; `cp - 32` in a small font when `cp` is printable ASCII
/// (0x20..=0x7E), none otherwise.
pub open spec fn override_slot(cp: u8, full: bool) -> Option<int> {
    if full {
        Some(cp as int)
    } else if 32 <= cp <= 126 {
        Some(cp - 32)
    } else {
        None
    }
}

/// The widths after the overrides, applied in order (a later override of the
/// same glyph wins); overrides without a slot in range are skipped.
pub open spec fn apply_overrides(widths: Seq<u8>, overrides: Seq<(u8, u8)>, full: bool) -> Seq<u8>
    decreases overrides.len(),
{
    if overrides.len() == 0 {
        widths
    } else {
        let prev = apply_overrides(widths, overrides.drop_last(), full);
        match override_slot(overrides.last().0, full) {
            Some(i) => if i < prev.len() {
                prev.update(i, overrides.last().1)
            } else {
                prev
            },
            None => prev,
        }
    }
}

/// Overrides keep the number of widths.
pub proof fn lemma_apply_overrides_len(widths: Seq<u8>, overrides: Seq<(u8, u8)>, full: bool)
    ensures
        apply_overrides(widths, overrides, full).len() == widths.len(),
    decreases overrides.len(),
{
    if overrides.len() > 0 {
        lemma_apply_overrides_len(widths, overrides.drop_last(), full);
    }
}

/// Applies per-glyph width overrides in order (see `apply_overrides`).
pub fn apply_width_overrides(widths: &mut Vec<u8>, overrides: &[(u8, u8)], full: bool)
    ensures
        final(widths)@ == apply_overrides(old(widths)@, overrides@, full),
{
    let ghost orig = widths@;
    let mut k: usize = 0;
    while k < overrides.len()
        invariant
            0 <= k <= overrides.len(),
            widths@ == apply_overrides(orig, overrides@.subrange(0, k as int), full),
        decreases overrides.len() - k,
    {
        let (cp, w) = overrides[k];
        proof {
            assert(overrides@.subrange(0, k + 1).drop_last() =~= overrides@.subrange(0, k as int));
            assert(overrides@.subrange(0, k + 1).last() == (cp, w));
        }
        if full {
            if (cp as usize) < widths.len() {
                widths.set(cp as usize, w);
            }
        } else if 32 <= cp && cp <= 126 {
            if ((cp - 32) as usize) < widths.len() {
                widths.set((cp - 32) as usize, w);
            }
        }
        k = k + 1;
    }
    assert(overrides@.subrange(0, overrides@.len() as int) =~= overrides@);
}

/// Repacks glyph data with cells `ru` words wide into cells `ru2` words wide:
/// each row keeps its words and gains zero words on the right.
pub fn widen_rows(data: &[u32], rows: usize, ru: usize, ru2: usize) -> (r: Vec<u32>)
    requires
        ru <= ru2,
        rows * ru <= data.len(),
        rows * ru2 <= usize::MAX,
    ensures
        r.len() == rows * ru2,
        forall|row: int, w: int|
            0 <= row < rows && 0 <= w < ru2 ==> #[trigger] r@[row * ru2 + w] == if w < ru {
                data@[row * ru + w]
            } else {
                0
            },
{
    let mut out: Vec<u32> = Vec::new();
    let mut row: usize = 0;
    assert(0 * ru2 == 0);
    while row < rows
        invariant
            0 <= row <= rows,
            ru <= ru2,
            rows * ru <= data.len(),
            rows * ru2 <= usize::MAX,
            out.len() == row * ru2,
            forall|r2: int, w: int|
                0 <= r2 < row && 0 <= w < ru2 ==> #[trigger] out@[r2 * ru2 + w] == if w < ru {
                    data@[r2 * ru + w]
                } else {
                    0
                },
        decreases rows - row,
    {
        proof {
            assert((row + 1) * ru <= rows * ru) by (nonlinear_arith)
                requires
                    row < rows,
            ;
            assert((row + 1) * ru2 <= rows * ru2) by (nonlinear_arith)
                requires
                    row < rows,
            ;
        }
        let mut w: usize = 0;
        while w < ru2
            invariant
                0 <= w <= ru2,
                row < rows,
                ru <= ru2,
                (row + 1) * ru <= data.len(),
                (row + 1) * ru2 <= usize::MAX,
                out.len() == row * ru2 + w,
                forall|r2: int, w2: int|
                    0 <= r2 < row && 0 <= w2 < ru2 ==> #[trigger] out@[r2 * ru2 + w2] == if w2 < ru {
                        data@[r2 * ru + w2]
                    } else {
                        0
                    },
                forall|w2: int|
                    0 <= w2 < w ==> #[trigger] out@[row * ru2 + w2] == if w2 < ru {
                        data@[row * ru + w2]
                    } else {
                        0
                    },
            decreases ru2 - w,
        {
            let v = if w < ru {
                assert(row * ru + w < (row + 1) * ru) by (nonlinear_arith)
                    requires
                        w < ru,
                ;
                data[row * ru + w]
            } else {
                0
            };
            let ghost before = out@;
            out.push(v);
            proof {
                assert forall|r2: int, w2: int|
                    0 <= r2 < row && 0 <= w2 < ru2 implies #[trigger] out@[r2 * ru2 + w2] == if w2 < ru {
                        data@[r2 * ru + w2]
                    } else {
                        0
                    } by {
                    assert(r2 * ru2 + w2 < row * ru2) by (nonlinear_arith)
                        requires
                            r2 < row,
                            w2 < ru2,
                    ;
                    assert(out@[r2 * ru2 + w2] == before[r2 * ru2 + w2]);
                }
            }
            w = w + 1;
        }
        proof {
            assert forall|r2: int, w2: int|
                0 <= r2 < row + 1 && 0 <= w2 < ru2 implies #[trigger] out@[r2 * ru2 + w2] == if w2 < ru {
                    data@[r2 * ru + w2]
                } else {
                    0
                } by {
                if r2 == row {
                    assert(out@[row * ru2 + w2] == if w2 < ru {
                        data@[row * ru + w2]
                    } else {
                        0
                    });
                }
            }
            assert((row + 1) * ru2 == row * ru2 + ru2) by (nonlinear_arith);
        }
        row = row + 1;
    }
    out
}

/// Which check, if any, rejects one `from = to` recolor pair: band 0 is the
/// transparent background and cannot be a `from`; bands are 0..=15.
pub open spec fn recolor_pair_error(pair: (u8, u8)) -> Option<CreateError> {
    if pair.0 == 0 {
        Some(CreateError::RecolorBackground)
    } else if pair.0 > 15 || pair.1 > 15 {
        Some(CreateError::RecolorBandOutOfRange)
    } else {
        None
    }
}

/// The error of the first rejected recolor pair, if any.
pub open spec fn recolor_error(recolor: Seq<(u8, u8)>) -> Option<CreateError>
    decreases recolor.len(),
{
    if recolor.len() == 0 {
        None
    } else {
        match recolor_error(recolor.drop_last()) {
            Some(e) => Some(e),
            None => recolor_pair_error(recolor.last()),
        }
    }
}

/// The band map a recolor list gives: the identity, with each `from` sent to
/// its `to` (a later pair for the same `from` wins). All pairs apply to the
/// sheet's bands at once, so a swap does not chain.
pub open spec fn recolor_map(recolor: Seq<(u8, u8)>) -> Seq<u8>
    decreases recolor.len(),
{
    if recolor.len() == 0 {
        Seq::new(16, |i: int| i as u8)
    } else {
        recolor_map(recolor.drop_last()).update(recolor.last().0 as int, recolor.last().1)
    }
}

/// A valid recolor list maps 16 bands to bands and keeps band 0 transparent.
pub proof fn lemma_recolor_map_bands(recolor: Seq<(u8, u8)>)
    requires
        recolor_error(recolor) is None,
    ensures
        recolor_map(recolor).len() == 16,
        recolor_map(recolor)[0] == 0,
        forall|i: int| 0 <= i < 16 ==> #[trigger] recolor_map(recolor)[i] <= 15,
    decreases recolor.len(),
{
    if recolor.len() > 0 {
        lemma_recolor_map_bands(recolor.drop_last());
    }
}

/// Builds the band table of a recolor list, or names its first bad pair.
pub fn recolor_table(recolor: &[(u8, u8)]) -> (r: Result<[u8; 16], CreateError>)
    ensures
        match r {
            Ok(t) => recolor_error(recolor@) is None && t@ == recolor_map(recolor@),
            Err(e) => recolor_error(recolor@) == Some(e),
        },
{
    let mut table: [u8; 16] = [0, 1, 2, 3, 4, 5, 6, 7, 8, 9, 10, 11, 12, 13, 14, 15];
    assert(table@ =~= recolor_map(recolor@.subrange(0, 0)));
    let mut k: usize = 0;
    while k < recolor.len()
        invariant
            0 <= k <= recolor.len(),
            recolor_error(recolor@.subrange(0, k as int)) is None,
            table@ == recolor_map(recolor@.subrange(0, k as int)),
        decreases recolor.len() - k,
    {
        let (from, to) = recolor[k];
        proof {
            assert(recolor@.subrange(0, k + 1).drop_last() =~= recolor@.subrange(0, k as int));
            assert(recolor@.subrange(0, k + 1).last() == (from, to));
        }
        if from == 0 {
            proof {
                lemma_recolor_error_prefix(recolor@, k as int + 1);
            }
            return Err(CreateError::RecolorBackground);
        }
        if from > 15 || to > 15 {
            proof {
                lemma_recolor_error_prefix(recolor@, k as int + 1);
            }
            return Err(CreateError::RecolorBandOutOfRange);
        }
        table[from as usize] = to;
        k = k + 1;
    }
    assert(recolor@.subrange(0, recolor@.len() as int) =~= recolor@);
    Ok(table)
}

/// A rejected prefix rejects the whole list with the same error.
proof fn lemma_recolor_error_prefix(recolor: Seq<(u8, u8)>, n: int)
    requires
        0 <= n <= recolor.len(),
        recolor_error(recolor.subrange(0, n)) is Some,
    ensures
        recolor_error(recolor) == recolor_error(recolor.subrange(0, n)),
    decreases recolor.len() - n,
{
    if n < recolor.len() {
        let next = recolor.subrange(0, n + 1);
        assert(next.drop_last() =~= recolor.subrange(0, n));
        lemma_recolor_error_prefix(recolor, n + 1);
    } else {
        assert(recolor.subrange(0, n) =~= recolor);
    }
}

/// Byte `k` (0..4) of `w` in little-endian order.
pub open spec fn le_byte(w: u32, k: int) -> u8 {
    if k == 0 {
        (w & 0xff) as u8
    } else if k == 1 {
        ((w >> 8) & 0xff) as u8
    } else if k == 2 {
        ((w >> 16) & 0xff) as u8
    } else {
        ((w >> 24) & 0xff) as u8
    }
}

/// The words of `data`, each as its 4 little-endian bytes.
pub open spec fn le_words(data: Seq<u32>) -> Seq<u8> {
    Seq::new(4 * data.len(), |i: int| le_byte(data[i / 4], i % 4))
}

/// The 4 little-endian bytes of a word read back give the word.
pub proof fn lemma_le_bytes_roundtrip(w: u32)
    ensures
        le_byte(w, 0) as int + 256 * le_byte(w, 1) as int + 65536 * le_byte(w, 2) as int + 16777216
            * le_byte(w, 3) as int == w,
{
    assert(((w & 0xff) as u8) as int + 256 * ((w >> 8) & 0xff) as u8 as int + 65536 * ((w >> 16) & 0xff) as u8 as int
        + 16777216 * ((w >> 24) & 0xff) as u8 as int == w) by (bit_vector);
}

/// Header of a font blob: mode, cell width, cell height, one advance width
/// per glyph, the right overhang, and for a small font one padding byte.
pub open spec fn header_bytes(mode: u8, cell_width: u8, cell_height: u8, widths: Seq<u8>, overhang: u8) -> Seq<u8> {
    seq![mode, cell_width, cell_height] + widths + seq![overhang] + if mode == 0 {
        seq![0u8]
    } else {
        Seq::<u8>::empty()
    }
}

/// Serialises a font: the header, then the glyph data word by word in
/// little-endian order.
pub fn font_bytes(mode: u8, cell_width: u8, cell_height: u8, widths: &[u8], overhang: u8, data: &[u32]) -> (r: Vec<u8>)
    requires
        4 + widths.len() + 4 * data.len() <= usize::MAX,
    ensures
        r@ == header_bytes(mode, cell_width, cell_height, widths@, overhang) + le_words(data@),
{
    let mut out: Vec<u8> = Vec::new();
    out.push(mode);
    out.push(cell_width);
    out.push(cell_height);
    let mut i: usize = 0;
    while i < widths.len()
        invariant
            0 <= i <= widths.len(),
            out@ == seq![mode, cell_width, cell_height] + widths@.subrange(0, i as int),
        decreases widths.len() - i,
    {
        out.push(widths[i]);
        i = i + 1;
        assert(out@ =~= seq![mode, cell_width, cell_height] + widths@.subrange(0, i as int));
    }
    out.push(overhang);
    if mode == 0 {
        out.push(0);
    }
    let ghost header = header_bytes(mode, cell_width, cell_height, widths@, overhang);
    assert(widths@.subrange(0, widths@.len() as int) =~= widths@);
    assert(out@ =~= header);
    let mut j: usize = 0;
    while j < data.len()
        invariant
            0 <= j <= data.len(),
            header.len() <= 5 + widths.len(),
            4 + widths.len() + 4 * data.len() <= usize::MAX,
            out@ == header + le_words(data@.subrange(0, j as int)),
        decreases data.len() - j,
    {
        let w = data[j];
        out.push((w & 0xff) as u8);
        out.push(((w >> 8) & 0xff) as u8);
        out.push(((w >> 16) & 0xff) as u8);
        out.push(((w >> 24) & 0xff) as u8);
        proof {
            let next = data@.subrange(0, j + 1);
            assert forall|i: int| 0 <= i < 4 * next.len() implies #[trigger] le_words(next)[i] == out@[header.len() + i] by {
                if i < 4 * j {
                    assert(next[i / 4] == data@.subrange(0, j as int)[i / 4]);
                }
            }
            assert(out@ =~= header + le_words(next));
        }
        j = j + 1;
    }
    assert(data@.subrange(0, data@.len() as int) =~= data@);
    out
}

/// Some glyph of the sheet has a non-transparent pixel inside its cell.
pub open spec fn sheet_has_ink(img: SheetImage, grid: SheetGrid) -> bool {
    exists|g: int, x: int|
        0 <= g < grid.glyph_count && 0 <= x < grid.cell_width && #[trigger] column_inked(
            sheet_glyph(img, grid.cell_width as int, grid.cell_height as int, grid.cols as int, g),
            grid.cell_height as int,
            x,
        )
}

/// Some width override names a code point that has no glyph in the font.
pub open spec fn override_out_of_range(overrides: Seq<(u8, u8)>, full: bool) -> bool {
    exists|i: int| 0 <= i < overrides.len() && #[trigger] override_slot(overrides[i].0, full) is None
}

/// Which check, if any, rejects a font request (checked in this order): the
/// recolor map, the grid, a sheet without ink, a width override outside the
/// font, a cell that `bold` widens past 255px.
pub open spec fn create_error(
    img: SheetImage,
    cols: u32,
    rows: u32,
    overrides: Seq<(u8, u8)>,
    bold: u8,
    recolor: Seq<(u8, u8)>,
) -> Option<CreateError> {
    let grid = grid_of(img.width as int, img.height as int, cols, rows);
    if recolor_error(recolor) is Some {
        recolor_error(recolor)
    } else if grid_error(img.width as int, img.height as int, cols as int, rows as int) is Some {
        grid_error(img.width as int, img.height as int, cols as int, rows as int)
    } else if !sheet_has_ink(img, grid) {
        Some(CreateError::AllGlyphsEmpty)
    } else if override_out_of_range(overrides, grid.mode_byte == 1) {
        Some(CreateError::OverrideOutOfRange)
    } else if grid.cell_width + bold > 255 {
        Some(CreateError::BoldTooWide)
    } else {
        None
    }
}

/// Advance widths measured from the sheet, one per glyph.
pub open spec fn sheet_widths(img: SheetImage, grid: SheetGrid) -> Seq<u8> {
    Seq::new(
        grid.glyph_count as nat,
        |g: int|
            advance_width(
                sheet_glyph(img, grid.cell_width as int, grid.cell_height as int, grid.cols as int, g),
                grid.cell_width as int,
                grid.cell_height as int,
            ) as u8,
    )
}

/// The advance widths a font stores: measured from the sheet (before any
/// styling), then `monospace`, then the overrides.
pub open spec fn font_widths(img: SheetImage, grid: SheetGrid, monospace: Option<Option<u8>>, overrides: Seq<(u8, u8)>) -> Seq<u8> {
    apply_overrides(monospace_widths(sheet_widths(img, grid), monospace), overrides, grid.mode_byte == 1)
}

/// Row `row` of glyph `g` as the sheet draws it, pixel by pixel.
pub open spec fn sheet_row(img: SheetImage, grid: SheetGrid, g: int, row: int) -> spec_fn(int) -> u32 {
    |x: int| sheet_px(&img, grid.cell_width as int, grid.cell_height as int, grid.cols as int, g, row, x)
}

/// Pixel `(row, x)` of glyph `g` thickened by `bold`: the brightest of the
/// sheet pixel and its `bold` left neighbours, inside the cell widened by
/// `bold`; 0 past it.
pub open spec fn bold_px(img: SheetImage, grid: SheetGrid, bold: int, g: int, row: int, x: int) -> u32 {
    if x < grid.cell_width + bold {
        smear_max(sheet_row(img, grid, g, row), x, 0, bold)
    } else {
        0
    }
}

/// The pixel a font stores for `(row, x)` of glyph `g`: the bold pixel
/// mapped through the recolor table.
pub open spec fn packed_px(img: SheetImage, grid: SheetGrid, bold: int, table: Seq<u8>, g: int, row: int, x: int) -> u32 {
    table[bold_px(img, grid, bold, g, row, x) as int] as u32
}

/// `bytes` is the font blob that packing `img` with `grid` and these options
/// gives: the header (cell widened by `bold`, the stored widths, `bold` as the
/// right overhang), then every packed pixel of every glyph, row by row, 8
/// pixels per little-endian word.
pub open spec fn font_blob(
    bytes: Seq<u8>,
    img: SheetImage,
    grid: SheetGrid,
    monospace: Option<Option<u8>>,
    overrides: Seq<(u8, u8)>,
    bold: u8,
    recolor: Seq<(u8, u8)>,
) -> bool {
    let cw2 = grid.cell_width + bold;
    let ru2 = (cw2 + 7) / 8;
    let header = header_bytes(
        grid.mode_byte,
        cw2 as u8,
        grid.cell_height,
        font_widths(img, grid, monospace, overrides),
        bold,
    );
    let hl = header.len() as int;
    &&& bytes.len() == hl + 4 * (grid.glyph_count * grid.cell_height * ru2)
    &&& bytes.subrange(0, hl) == header
    &&& blob_pixels_ok(bytes, hl, img, grid, bold, recolor_map(recolor))
}

/// From byte `start` on, `bytes` holds every packed pixel of every glyph (see
/// `packed_px`), row by row, 8 pixels per little-endian word, in cells
/// widened by `bold`.
pub open spec fn blob_pixels_ok(bytes: Seq<u8>, start: int, img: SheetImage, grid: SheetGrid, bold: u8, table: Seq<u8>) -> bool {
    let ru2 = (grid.cell_width + bold + 7) / 8;
    forall|g: int, row: int, x: int|
        0 <= g < grid.glyph_count && 0 <= row < grid.cell_height && 0 <= x < 8 * ru2 ==> #[trigger] nib(
            le_u32(bytes, start + 4 * (glyph_row_base(g, row, grid.cell_height as int, ru2) + x / 8)) as u32,
            (x % 8) as u32,
        ) == packed_px(img, grid, bold as int, table, g, row, x)
}

/// `bytes` is the font blob that packing `img` on a `cols` x `rows` grid
/// with these options gives (see `font_blob`).
pub open spec fn created_font(
    bytes: Seq<u8>,
    img: SheetImage,
    cols: u32,
    rows: u32,
    monospace: Option<Option<u8>>,
    overrides: Seq<(u8, u8)>,
    bold: u8,
    recolor: Seq<(u8, u8)>,
) -> bool {
    font_blob(bytes, img, grid_of(img.width as int, img.height as int, cols, rows), monospace, overrides, bold, recolor)
}

/// Packed glyph data that matches the sheet pixel for pixel.
pub open spec fn data_matches_sheet(data: Seq<u32>, img: SheetImage, grid: SheetGrid) -> bool {
    let ru = (grid.cell_width as int + 7) / 8;
    forall|g: int, row: int, x: int|
        0 <= g < grid.glyph_count && 0 <= row < grid.cell_height && 0 <= x < 8 * ru ==> #[trigger] px_at(
            data,
            glyph_row_base(g, row, grid.cell_height as int, ru),
            x,
        ) == sheet_px(&img, grid.cell_width as int, grid.cell_height as int, grid.cols as int, g, row, x)
}

proof fn lemma_glyph_matches_sheet(data: Seq<u32>, img: SheetImage, grid: SheetGrid, g: int)
    requires
        data_matches_sheet(data, img, grid),
        0 <= g < grid.glyph_count,
    ensures
        forall|row: int, x: int|
            0 <= row < grid.cell_height && 0 <= x < grid.cell_width ==> #[trigger] data_glyph(
                data,
                (grid.cell_width as int + 7) / 8,
                grid.cell_height as int,
                g,
            )(row, x) == sheet_glyph(img, grid.cell_width as int, grid.cell_height as int, grid.cols as int, g)(
                row,
                x,
            ),
{
    let ru = (grid.cell_width as int + 7) / 8;
    assert forall|row: int, x: int| 0 <= row < grid.cell_height && 0 <= x < grid.cell_width implies #[trigger] data_glyph(
        data,
        ru,
        grid.cell_height as int,
        g,
    )(row, x) == sheet_glyph(img, grid.cell_width as int, grid.cell_height as int, grid.cols as int, g)(row, x) by {
        assert(px_at(data, glyph_row_base(g, row, grid.cell_height as int, ru), x) == sheet_px(
            &img,
            grid.cell_width as int,
            grid.cell_height as int,
            grid.cols as int,
            g,
            row,
            x,
        ));
    }
}

/// Reading word `i` back from a serialised font gives `data[i]`.
proof fn lemma_le_words_read(header: Seq<u8>, data: Seq<u32>, i: int)
    requires
        0 <= i < data.len(),
    ensures
        le_u32(header + le_words(data), header.len() + 4 * i) == data[i],
{
    let b = header + le_words(data);
    let h = header.len() as int;
    assert((4 * i) / 4 == i && (4 * i + 1) / 4 == i && (4 * i + 2) / 4 == i && (4 * i + 3) / 4 == i);
    assert((4 * i) % 4 == 0 && (4 * i + 1) % 4 == 1 && (4 * i + 2) % 4 == 2 && (4 * i + 3) % 4 == 3);
    assert(b[h + 4 * i] == le_byte(data[i], 0));
    assert(b[h + 4 * i + 1] == le_byte(data[i], 1));
    assert(b[h + 4 * i + 2] == le_byte(data[i], 2));
    assert(b[h + 4 * i + 3] == le_byte(data[i], 3));
    lemma_le_bytes_roundtrip(data[i]);
}

/// Whether some glyph has ink inside its cell.
fn glyphs_have_ink(data: &[u32], cell_width: u8, cell_height: u8, glyph_count: usize) -> (r: bool)
    requires
        glyph_count * (((cell_width as int + 7) / 8) * cell_height) <= data.len(),
    ensures
        r == exists|g: int, x: int|
            0 <= g < glyph_count && 0 <= x < cell_width && #[trigger] column_inked(
                data_glyph(data@, (cell_width as int + 7) / 8, cell_height as int, g),
                cell_height as int,
                x,
            ),
{
    let cw = cell_width as usize;
    let ch = cell_height as usize;
    let row_u32s = (cw + 7) / 8;
    let mut g: usize = 0;
    while g < glyph_count
        invariant
            0 <= g <= glyph_count,
            cw == cell_width,
            ch == cell_height,
            row_u32s == (cw + 7) / 8,
            glyph_count * (row_u32s * ch) <= data.len(),
            forall|g2: int, x: int|
                0 <= g2 < g && 0 <= x < cw ==> !#[trigger] column_inked(
                    data_glyph(data@, row_u32s as int, ch as int, g2),
                    ch as int,
                    x,
                ),
        decreases glyph_count - g,
    {
        proof {
            assert((g + 1) * ch * row_u32s <= glyph_count * (row_u32s * ch)) by (nonlinear_arith)
                requires
                    g < glyph_count,
            ;
        }
        let mut x: usize = 0;
        while x < cw
            invariant
                0 <= x <= cw,
                g < glyph_count,
                cw == cell_width,
                ch == cell_height,
                row_u32s == (cw + 7) / 8,
                (g + 1) * ch * row_u32s <= data.len(),
                forall|x2: int|
                    0 <= x2 < x ==> !#[trigger] column_inked(data_glyph(data@, row_u32s as int, ch as int, g as int), ch as int, x2),
            decreases cw - x,
        {
            if column_has_ink(data, row_u32s, ch, g, x) {
                assert(column_inked(
                    data_glyph(data@, (cell_width as int + 7) / 8, cell_height as int, g as int),
                    cell_height as int,
                    x as int,
                ));
                return true;
            }
            x = x + 1;
        }
        g = g + 1;
    }
    false
}

/// Packs a font sheet into a font blob (see `created_font`), or names the
/// first check that rejects the request (see `create_error`)
///
/// Advance widths are measured before styling; `bold` widens the packed cell
/// by `bold` pixels, smears each pixel over its `bold` left neighbours and is
/// stored as the right overhang; the recolor map applies after `bold`
pub fn create_bytes(
    cols: u32,
    rows: u32,
    img: &SheetImage,
    monospace: Option<Option<u8>>,
    width_overrides: &[(u8, u8)],
    bold: u8,
    recolor: &[(u8, u8)],
) -> (r: Result<Vec<u8>, CreateError>)
    requires
        img.wf(),
    ensures
        match r {
            Ok(bytes) => create_error(*img, cols, rows, width_overrides@, bold, recolor@) is None && created_font(
                bytes@,
                *img,
                cols,
                rows,
                monospace,
                width_overrides@,
                bold,
                recolor@,
            ),
            Err(e) => create_error(*img, cols, rows, width_overrides@, bold, recolor@) == Some(e),
        },
{
    let table = match recolor_table(recolor) {
        Ok(t) => t,
        Err(e) => {
            return Err(e);
        },
    };
    let grid = match SheetGrid::resolve(img, cols, rows) {
        Ok(g) => g,
        Err(e) => {
            return Err(e);
        },
    };
    let cw = grid.cell_width;
    let ch = grid.cell_height;
    let glyph_count = grid.glyph_count;
    let mode_byte = grid.mode_byte;
    let ru = (cw as usize + 7) / 8;
    proof {
        let w = img.width as int;
        let h = img.height as int;
        assert(cw * cols == w) by (nonlinear_arith)
            requires
                w % (cols as int) == 0,
                cols > 0,
                cw == w / (cols as int),
        ;
        assert((glyph_count + cols - 1) / (cols as int) <= rows) by (nonlinear_arith)
            requires
                glyph_count <= cols * rows,
                cols > 0,
        ;
        assert(ch * ((glyph_count + cols - 1) / (cols as int)) <= ch * rows) by (nonlinear_arith)
            requires
                (glyph_count + cols - 1) / (cols as int) <= rows,
        ;
        assert(ch * rows == h) by (nonlinear_arith)
            requires
                h % (rows as int) == 0,
                rows > 0,
                ch == h / (rows as int),
        ;
        assert(glyph_count * (ru * ch) <= 256 * (32 * 255)) by (nonlinear_arith)
            requires
                glyph_count <= 256,
                ru <= 32,
                ch <= 255,
        ;
    }
    let data = extract_glyph_data(img, cw, ch, cols as usize, glyph_count);
    proof {
        assert(data_matches_sheet(data@, *img, grid));
    }
    if !glyphs_have_ink(&data, cw, ch, glyph_count) {
        proof {
            assert forall|g: int, x: int| 0 <= g < glyph_count && 0 <= x < cw implies !#[trigger] column_inked(
                sheet_glyph(*img, cw as int, ch as int, cols as int, g),
                ch as int,
                x,
            ) by {
                lemma_glyph_matches_sheet(data@, *img, grid, g);
                assert(!column_inked(data_glyph(data@, ru as int, ch as int, g), ch as int, x));
                if column_inked(sheet_glyph(*img, cw as int, ch as int, cols as int, g), ch as int, x) {
                    let row = choose|row: int| 0 <= row < ch && #[trigger] sheet_glyph(*img, cw as int, ch as int, cols as int, g)(row, x) != 0;
                    assert(data_glyph(data@, ru as int, ch as int, g)(row, x) != 0);
                }
            }
        }
        return Err(CreateError::AllGlyphsEmpty);
    }
    proof {
        let (g, x) = choose|g: int, x: int|
            0 <= g < glyph_count && 0 <= x < cw && #[trigger] column_inked(
                data_glyph(data@, ru as int, ch as int, g),
                ch as int,
                x,
            );
        lemma_glyph_matches_sheet(data@, *img, grid, g);
        let row = choose|row: int| 0 <= row < ch && #[trigger] data_glyph(data@, ru as int, ch as int, g)(row, x) != 0;
        assert(sheet_glyph(*img, cw as int, ch as int, cols as int, g)(row, x) != 0);
        assert(column_inked(sheet_glyph(*img, cw as int, ch as int, cols as int, g), ch as int, x));
        assert(sheet_has_ink(*img, grid));
    }
    if mode_byte == 0 {
        let mut k: usize = 0;
        while k < width_overrides.len()
            invariant
                0 <= k <= width_overrides.len(),
                mode_byte == 0,
                mode_byte == grid.mode_byte,
                recolor_error(recolor@) is None,
                grid_error(img.width as int, img.height as int, cols as int, rows as int) is None,
                grid == grid_of(img.width as int, img.height as int, cols, rows),
                sheet_has_ink(*img, grid),
                forall|i: int| 0 <= i < k ==> override_slot(#[trigger] width_overrides@[i].0, false) is Some,
            decreases width_overrides.len() - k,
        {
            let cp = width_overrides[k].0;
            if cp < 32 || cp > 126 {
                assert(override_slot(width_overrides@[k as int].0, false) is None);
                assert(override_out_of_range(width_overrides@, mode_byte == 1));
                return Err(CreateError::OverrideOutOfRange);
            }
            k = k + 1;
        }
    }
    proof {
        let full = mode_byte == 1;
        if override_out_of_range(width_overrides@, full) {
            let i = choose|i: int| 0 <= i < width_overrides@.len() && #[trigger] override_slot(width_overrides@[i].0, full) is None;
            if mode_byte == 0 {
                assert(override_slot(width_overrides@[i].0, false) is Some);
            }
        }
    }
    if cw as u16 + bold as u16 > 255 {
        return Err(CreateError::BoldTooWide);
    }
    let mut widths = measure_widths(&data, cw, ch, glyph_count);
    proof {
        assert forall|g: int| 0 <= g < glyph_count implies #[trigger] widths@[g] == sheet_widths(*img, grid)[g] by {
            lemma_glyph_matches_sheet(data@, *img, grid, g);
            lemma_ink_extent_agree(
                data_glyph(data@, ru as int, ch as int, g),
                sheet_glyph(*img, cw as int, ch as int, cols as int, g),
                ch as int,
                cw as int,
            );
        }
        assert(widths@ =~= sheet_widths(*img, grid));
    }
    apply_monospace(&mut widths, monospace);
    apply_width_overrides(&mut widths, width_overrides, mode_byte == 1);
    let cw2: u8 = cw + bold;
    let ru2 = (cw2 as usize + 7) / 8;
    proof {
        assert(glyph_count * ch * ru2 <= 256 * 255 * 32) by (nonlinear_arith)
            requires
                glyph_count <= 256,
                ru2 <= 32,
                ch <= 255,
        ;
        assert(glyph_count * ch * ru == glyph_count * (ru * ch)) by (nonlinear_arith);
    }
    assert(glyph_count * ch <= 256 * 255) by (nonlinear_arith)
        requires
            glyph_count <= 256,
            ch <= 255,
    ;
    let glyph_rows = glyph_count * ch as usize;
    let mut styled = widen_rows(&data, glyph_rows, ru, ru2);
    let ghost widened = styled@;
    proof {
        assert(glyph_count * ((cw2 as int + 7) / 8 * ch) == glyph_rows * ru2) by (nonlinear_arith)
            requires
                glyph_rows == glyph_count * ch,
                ru2 == (cw2 as int + 7) / 8,
        ;
    }
    apply_style(&mut styled, cw2, ch, glyph_count, 0, bold);
    let ghost bolded = styled@;
    apply_recolour(&mut styled, &table);
    proof {
        lemma_recolor_map_bands(recolor@);
        lemma_packed_pixels(data@, widened, bolded, styled@, *img, grid, bold, table@);
        lemma_apply_overrides_len(monospace_widths(sheet_widths(*img, grid), monospace), width_overrides@, mode_byte == 1);
        assert(widths.len() == glyph_count);
        assert(styled.len() == glyph_rows * ru2);
        assert(glyph_rows * ru2 <= 256 * 255 * 32) by (nonlinear_arith)
            requires
                glyph_rows == glyph_count * ch,
                glyph_count <= 256,
                ru2 <= 32,
                ch <= 255,
        ;
    }
    let bytes = font_bytes(mode_byte, cw2, ch, &widths, bold, &styled);
    proof {
        lemma_font_blob(bytes@, styled@, *img, grid, monospace, width_overrides@, bold, recolor@, widths@);
    }
    Ok(bytes)
}

proof fn lemma_row_index(g: int, row: int, w: int, gc: int, ch: int, ru: int)
    requires
        0 <= g < gc,
        0 <= row < ch,
        0 <= w < ru,
    ensures
        0 <= g * ch + row < gc * ch,
        glyph_row_base(g, row, ch, ru) == (g * ch + row) * ru,
        0 <= glyph_row_base(g, row, ch, ru) + w < gc * ch * ru,
{
    assert(0 <= g * ch + row < gc * ch) by (nonlinear_arith)
        requires
            0 <= g < gc,
            0 <= row < ch,
    ;
    assert(0 <= (g * ch + row) * ru + w < gc * ch * ru) by (nonlinear_arith)
        requires
            0 <= g * ch + row < gc * ch,
            0 <= w < ru,
    ;
}

/// Widening, bolding and recoloring packed sheet data gives the packed pixels
/// of the request.
proof fn lemma_packed_pixels(
    data: Seq<u32>,
    widened: Seq<u32>,
    bolded: Seq<u32>,
    out: Seq<u32>,
    img: SheetImage,
    grid: SheetGrid,
    bold: u8,
    table: Seq<u8>,
)
    requires
        data_matches_sheet(data, img, grid),
        grid.cell_width + bold <= 255,
        grid.glyph_count * grid.cell_height * ((grid.cell_width as int + 7) / 8) <= data.len(),
        widened.len() == grid.glyph_count * grid.cell_height * ((grid.cell_width + bold + 7) / 8),
        forall|r: int, w: int|
            0 <= r < grid.glyph_count * grid.cell_height && 0 <= w < (grid.cell_width + bold + 7) / 8
                ==> #[trigger] widened[r * ((grid.cell_width + bold + 7) / 8) + w] == if w < (grid.cell_width as int
                + 7) / 8 {
                data[r * ((grid.cell_width as int + 7) / 8) + w]
            } else {
                0
            },
        bolded.len() == widened.len(),
        bold == 0 ==> bolded == widened,
        bold != 0 ==> forall|r: int|
            0 <= r < grid.glyph_count * grid.cell_height ==> #[trigger] styled_row_ok(
                bolded,
                widened,
                r,
                (grid.cell_width + bold + 7) / 8,
                grid.cell_width + bold,
                grid.cell_height as int,
                0,
                bold as int,
            ),
        out.len() == bolded.len(),
        forall|i: int| 0 <= i < bolded.len() ==> #[trigger] out[i] == recolour_word(bolded[i], table),
        table.len() == 16,
        forall|i: int| 0 <= i < 16 ==> #[trigger] table[i] <= 15,
    ensures
        forall|g: int, row: int, x: int|
            0 <= g < grid.glyph_count && 0 <= row < grid.cell_height && 0 <= x < 8 * ((grid.cell_width + bold + 7)
                / 8) ==> #[trigger] px_at(
                out,
                glyph_row_base(g, row, grid.cell_height as int, (grid.cell_width + bold + 7) / 8),
                x,
            ) == packed_px(img, grid, bold as int, table, g, row, x),
{
    let cw = grid.cell_width as int;
    let ch = grid.cell_height as int;
    let gc = grid.glyph_count as int;
    let ru = (cw + 7) / 8;
    let ru2 = (cw + bold + 7) / 8;
    assert forall|g: int, row: int, x: int| 0 <= g < gc && 0 <= row < ch && 0 <= x < 8 * ru2 implies #[trigger] px_at(
        out,
        glyph_row_base(g, row, ch, ru2),
        x,
    ) == packed_px(img, grid, bold as int, table, g, row, x) by {
        let r = g * ch + row;
        let base2 = glyph_row_base(g, row, ch, ru2);
        lemma_row_index(g, row, x / 8, gc, ch, ru2);
        let pixel = sheet_row(img, grid, g, row);
        assert forall|i: int| 0 <= i < 8 * ru2 implies #[trigger] px_at(widened, base2, i) == pixel(i) by {
            lemma_row_index(g, row, i / 8, gc, ch, ru2);
            assert(widened[r * ru2 + i / 8] == if i / 8 < ru {
                data[r * ru + i / 8]
            } else {
                0
            });
            if i / 8 < ru {
                lemma_row_index(g, row, i / 8, gc, ch, ru);
                assert(px_at(data, glyph_row_base(g, row, ch, ru), i) == sheet_px(&img, cw, ch, grid.cols as int, g, row, i));
            } else {
                lemma_zero_word(0u32);
                assert(nib(0u32, (i % 8) as u32) == 0);
            }
        }
        let bp = bold_px(img, grid, bold as int, g, row, x);
        if bold == 0 {
            assert(px_at(widened, base2, x) == pixel(x));
            if x < cw {
                assert(smear_max(pixel, x, 0, 0) == pixel(x));
            }
            assert(px_at(bolded, base2, x) == bp);
        } else {
            assert(styled_row_ok(bolded, widened, r, ru2, cw + bold, ch, 0, bold as int));
            assert(band_shift(r % ch, ch, 0) == 0);
            if x < cw + bold {
                lemma_smear_max_agree(|i: int| px_at(widened, r * ru2, i), pixel, x, 0, bold as int);
                assert(styled_px(widened, r * ru2, x, 0, bold as int) == bp);
            }
            assert(px_at(bolded, base2, x) == bp);
        }
        let k = base2 + x / 8;
        law_recolour_maps_each_pixel(bolded[k], table, (x % 8) as u32);
        assert(out[k] == recolour_word(bolded[k], table));
    }
}

/// The serialised font of the packed pixels is the font blob of the request.
pub proof fn lemma_font_blob(
    bytes: Seq<u8>,
    out: Seq<u32>,
    img: SheetImage,
    grid: SheetGrid,
    monospace: Option<Option<u8>>,
    overrides: Seq<(u8, u8)>,
    bold: u8,
    recolor: Seq<(u8, u8)>,
    widths: Seq<u8>,
)
    requires
        grid.cell_width + bold <= 255,
        widths == font_widths(img, grid, monospace, overrides),
        bytes == header_bytes(grid.mode_byte, (grid.cell_width + bold) as u8, grid.cell_height, widths, bold) + le_words(
            out,
        ),
        out.len() == grid.glyph_count * grid.cell_height * ((grid.cell_width + bold + 7) / 8),
        forall|g: int, row: int, x: int|
            0 <= g < grid.glyph_count && 0 <= row < grid.cell_height && 0 <= x < 8 * ((grid.cell_width + bold + 7)
                / 8) ==> #[trigger] px_at(
                out,
                glyph_row_base(g, row, grid.cell_height as int, (grid.cell_width + bold + 7) / 8),
                x,
            ) == packed_px(img, grid, bold as int, recolor_map(recolor), g, row, x),
    ensures
        font_blob(bytes, img, grid, monospace, overrides, bold, recolor),
{
    let ch = grid.cell_height as int;
    let gc = grid.glyph_count as int;
    let ru2 = (grid.cell_width + bold + 7) / 8;
    let header = header_bytes(grid.mode_byte, (grid.cell_width + bold) as u8, grid.cell_height, widths, bold);
    let hl = header.len() as int;
    assert(bytes.subrange(0, hl) =~= header);
    assert forall|g: int, row: int, x: int| 0 <= g < gc && 0 <= row < ch && 0 <= x < 8 * ru2 implies #[trigger] nib(
        le_u32(bytes, hl + 4 * (glyph_row_base(g, row, ch, ru2) + x / 8)) as u32,
        (x % 8) as u32,
    ) == packed_px(img, grid, bold as int, recolor_map(recolor), g, row, x) by {
        lemma_row_index(g, row, x / 8, gc, ch, ru2);
        let i = glyph_row_base(g, row, ch, ru2) + x / 8;
        lemma_le_words_read(header, out, i);
        assert(px_at(out, glyph_row_base(g, row, ch, ru2), x) == packed_px(img, grid, bold as int, recolor_map(recolor), g, row, x));
    }
}

/// One stored width per glyph.
pub proof fn lemma_font_widths_len(img: SheetImage, grid: SheetGrid, monospace: Option<Option<u8>>, overrides: Seq<(u8, u8)>)
    ensures
        font_widths(img, grid, monospace, overrides).len() == grid.glyph_count,
{
    lemma_apply_overrides_len(monospace_widths(sheet_widths(img, grid), monospace), overrides, grid.mode_byte == 1);
}

} // verus!

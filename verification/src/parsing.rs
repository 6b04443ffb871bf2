use vstd::prelude::*;
use crate::pixels::{lemma_or_into_empty_nibble, nib};

verus! {

/// Pixels `0..p` of `w` mapped through `table`, packed back into a word.
pub open spec fn recolour_partial(w: u32, table: Seq<u8>, p: u32) -> u32
    decreases p,
{
    if p == 0 {
        0
    } else {
        recolour_partial(w, table, (p - 1) as u32) | (((table[nib(w, (p - 1) as u32) as int] as u32)
            << ((4 * (p - 1)) as u32)) as u32)
    }
}

/// The word `w` with every pixel's palette index `N` replaced by `table[N]`.
pub open spec fn recolour_word(w: u32, table: Seq<u8>) -> u32 {
    recolour_partial(w, table, 8)
}

/// With a table of palette indices (0..=15), recolouring maps every pixel
/// independently: pixel `k` becomes `table[old pixel k]`.
pub proof fn law_recolour_maps_each_pixel(w: u32, table: Seq<u8>, k: u32)
    requires
        table.len() == 16,
        forall|i: int| 0 <= i < 16 ==> #[trigger] table[i] <= 15,
        k < 8,
    ensures
        nib(recolour_word(w, table), k) == table[nib(w, k) as int],
{
    reveal_with_fuel(recolour_partial, 9);
    let t0 = table[nib(w, 0) as int] as u32;
    let t1 = table[nib(w, 1) as int] as u32;
    let t2 = table[nib(w, 2) as int] as u32;
    let t3 = table[nib(w, 3) as int] as u32;
    let t4 = table[nib(w, 4) as int] as u32;
    let t5 = table[nib(w, 5) as int] as u32;
    let t6 = table[nib(w, 6) as int] as u32;
    let t7 = table[nib(w, 7) as int] as u32;
    assert forall|j: u32| j < 8 implies nib(w, j) < 16 by {
        assert((w >> (4 * j)) & 0xF < 16) by (bit_vector);
    }
    let r = recolour_word(w, table);
    assert(recolour_partial(w, table, 0) == 0);
    assert(recolour_partial(w, table, 1) == 0 | (t0 << 0));
    assert(recolour_partial(w, table, 2) == 0 | (t0 << 0) | (t1 << 4));
    assert(recolour_partial(w, table, 3) == 0 | (t0 << 0) | (t1 << 4) | (t2 << 8));
    assert(recolour_partial(w, table, 4) == 0 | (t0 << 0) | (t1 << 4) | (t2 << 8) | (t3 << 12));
    assert(recolour_partial(w, table, 5) == 0 | (t0 << 0) | (t1 << 4) | (t2 << 8) | (t3 << 12) | (t4 << 16));
    assert(recolour_partial(w, table, 6) == 0 | (t0 << 0) | (t1 << 4) | (t2 << 8) | (t3 << 12) | (t4 << 16) | (t5 << 20));
    assert(recolour_partial(w, table, 7) == 0 | (t0 << 0) | (t1 << 4) | (t2 << 8) | (t3 << 12) | (t4 << 16) | (t5 << 20) | (t6 << 24));
    assert(r == 0 | (t0 << 0) | (t1 << 4) | (t2 << 8) | (t3 << 12) | (t4 << 16) | (t5 << 20) | (t6 << 24) | (
    t7 << 28));
    assert({
        &&& (r >> 0) & 0xF == t0
        &&& (r >> 4) & 0xF == t1
        &&& (r >> 8) & 0xF == t2
        &&& (r >> 12) & 0xF == t3
        &&& (r >> 16) & 0xF == t4
        &&& (r >> 20) & 0xF == t5
        &&& (r >> 24) & 0xF == t6
        &&& (r >> 28) & 0xF == t7
    }) by (bit_vector)
        requires
            r == 0 | (t0 << 0) | (t1 << 4) | (t2 << 8) | (t3 << 12) | (t4 << 16) | (t5 << 20) | (t6 << 24) | (
            t7 << 28),
            t0 < 16,
            t1 < 16,
            t2 < 16,
            t3 < 16,
            t4 < 16,
            t5 < 16,
            t6 < 16,
            t7 < 16,
    ;
    assert(nib(r, 0) == (r >> 0) & 0xF);
}

/// Remaps every pixel's palette index through `table` (index N becomes
/// `table[N]`)
///
/// The table is applied in a single pass, so a swapping table exchanges two
/// bands rather than chaining
pub fn apply_recolour(data: &mut [u32], table: &[u8; 16])
    ensures
        final(data)@.len() == old(data)@.len(),
        forall|i: int|
            0 <= i < old(data)@.len() ==> #[trigger] final(data)@[i] == recolour_word(old(data)@[i], table@),
{
    let mut i: usize = 0;
    while i < data.len()
        invariant
            0 <= i <= data.len(),
            data@.len() == old(data)@.len(),
            forall|j: int| 0 <= j < i ==> #[trigger] data@[j] == recolour_word(old(data)@[j], table@),
            forall|j: int| i <= j < data@.len() ==> #[trigger] data@[j] == old(data)@[j],
        decreases data.len() - i,
    {
        let word = data[i];
        let mut out: u32 = 0;
        let mut px: u32 = 0;
        while px < 8
            invariant
                0 <= px <= 8,
                table@.len() == 16,
                out == recolour_partial(word, table@, px),
            decreases 8 - px,
        {
            let idx = (word >> (px * 4)) & 0xF;
            proof {
                assert(idx < 16) by (bit_vector)
                    requires
                        idx == (word >> (px * 4)) & 0xF,
                ;
                assert(idx == nib(word, px));
            }
            out = out | ((table[idx as usize] as u32) << (px * 4));
            px = px + 1;
        }
        data[i] = out;
        i = i + 1;
    }
}


/// Pixel `x` of the packed row that starts at word `row_base`.
pub open spec fn px_at(data: Seq<u32>, row_base: int, x: int) -> u32 {
    nib(data[row_base + x / 8], (x % 8) as u32)
}

/// Italic shear of row `row` in a cell `height` rows tall: the top third
/// shifts right by `2 * italic`, the middle third by `italic`, the bottom band
/// (which absorbs any remainder) stays put.
pub open spec fn band_shift(row: int, height: int, italic: int) -> int {
    let third = height / 3;
    if row < third {
        2 * italic
    } else if row < 2 * third {
        italic
    } else {
        0
    }
}

/// Brightest of the pixels `x - shift - s'` for `s'` in `0..=s` that lie in
/// the row (`pixel(i)` gives pixel `i`).
pub open spec fn smear_max(pixel: spec_fn(int) -> u32, x: int, shift: int, s: int) -> u32
    decreases s,
{
    let here: u32 = if x - shift - s >= 0 {
        pixel(x - shift - s)
    } else {
        0
    };
    if s <= 0 {
        here
    } else {
        let before = smear_max(pixel, x, shift, s - 1);
        if before >= here {
            before
        } else {
            here
        }
    }
}

/// Value of pixel `x` of a styled row: the maximum over the sheared pixel and
/// its `bold` left neighbours, read from the row at `row_base` of `data`.
pub open spec fn styled_px(data: Seq<u32>, row_base: int, x: int, shift: int, bold: int) -> u32 {
    smear_max(|i: int| px_at(data, row_base, i), x, shift, bold)
}

/// Two rows that agree up to `x` smear to the same value at `x`.
pub proof fn lemma_smear_max_agree(p1: spec_fn(int) -> u32, p2: spec_fn(int) -> u32, x: int, shift: int, s: int)
    requires
        forall|i: int| 0 <= i <= x ==> #[trigger] p1(i) == p2(i),
        shift >= 0,
        s >= 0,
    ensures
        smear_max(p1, x, shift, s) == smear_max(p2, x, shift, s),
    decreases s,
{
    if x - shift - s >= 0 {
        assert(p1(x - shift - s) == p2(x - shift - s));
    }
    if s > 0 {
        lemma_smear_max_agree(p1, p2, x, shift, s - 1);
    }
}

proof fn lemma_smear_max_bound(p: spec_fn(int) -> u32, x: int, shift: int, s: int)
    requires
        forall|i: int| 0 <= i <= x ==> #[trigger] p(i) < 16,
        shift >= 0,
        s >= 0,
    ensures
        smear_max(p, x, shift, s) < 16,
    decreases s,
{
    if x - shift - s >= 0 {
        assert(p(x - shift - s) < 16);
    }
    if s > 0 {
        lemma_smear_max_bound(p, x, shift, s - 1);
    }
}

/// A 4-bit pixel is below 16.
pub proof fn lemma_nib_bound(w: u32, k: u32)
    ensures
        nib(w, k) < 16,
{
    assert((w >> (4 * k)) & 0xF < 16) by (bit_vector);
}

/// Styles one packed row in place: the `row_u32s` words from `row_base` become
/// the sheared, smeared pixels of the first `cell_width` pixels, and the rest
/// of the row is cleared.
fn style_row(data: &mut [u32], row_base: usize, row_u32s: usize, cell_width: usize, shift: usize, bold: usize)
    requires
        row_base + row_u32s <= old(data)@.len(),
        row_u32s == (cell_width + 7) / 8,
        cell_width <= 255,
        shift <= 510,
        bold <= 255,
    ensures
        final(data)@.len() == old(data)@.len(),
        forall|j: int|
            0 <= j < old(data)@.len() && !(row_base <= j < row_base + row_u32s) ==> #[trigger] final(data)@[j] == old(data)@[j],
        forall|x: int|
            0 <= x < 8 * row_u32s ==> #[trigger] px_at(final(data)@, row_base as int, x) == if x
                < cell_width {
                styled_px(old(data)@, row_base as int, x, shift as int, bold as int)
            } else {
                0
            },
{
    let ghost orig = data@;
    let mut src: Vec<u8> = Vec::with_capacity(cell_width);
    let mut x: usize = 0;
    while x < cell_width
        invariant
            0 <= x <= cell_width,
            row_base + row_u32s <= data@.len(),
            row_u32s == (cell_width + 7) / 8,
            data@ == orig,
            src.len() == x,
            forall|i: int| 0 <= i < x ==> #[trigger] src@[i] as u32 == px_at(orig, row_base as int, i),
        decreases cell_width - x,
    {
        assert(x / 8 < row_u32s);
        assert(row_base + x / 8 < data.len());
        let w = data[row_base + x / 8];
        let v = (w >> ((x % 8) as u32 * 4)) & 0xF;
        proof {
            assert(v == nib(w, (x % 8) as u32));
            lemma_nib_bound(w, (x % 8) as u32);
        }
        src.push(v as u8);
        x = x + 1;
    }
    let mut j: usize = 0;
    while j < row_u32s
        invariant
            0 <= j <= row_u32s,
            row_base + row_u32s <= data@.len(),
            data@.len() == orig.len(),
            forall|k: int| 0 <= k < data@.len() && !(row_base <= k < row_base + j) ==> #[trigger] data@[k] == orig[k],
            forall|k: int| row_base <= k < row_base + j ==> #[trigger] data@[k] == 0,
        decreases row_u32s - j,
    {
        data[row_base + j] = 0;
        j = j + 1;
    }
    proof {
        assert forall|x: int| 0 <= x < 8 * row_u32s implies #[trigger] px_at(data@, row_base as int, x) == 0 by {
            assert(data@[row_base + x / 8] == 0);
            let k = (x % 8) as u32;
            assert((0u32 >> (4 * k)) & 0xF == 0) by (bit_vector);
        }
    }
    let ghost pixel = |i: int| px_at(orig, row_base as int, i);
    let mut x: usize = 0;
    while x < cell_width
        invariant
            0 <= x <= cell_width,
            row_base + row_u32s <= data@.len(),
            row_u32s == (cell_width + 7) / 8,
            cell_width <= 255,
            shift <= 510,
            bold <= 255,
            data@.len() == orig.len(),
            src.len() == cell_width,
            forall|i: int| 0 <= i < cell_width ==> #[trigger] src@[i] as u32 == px_at(orig, row_base as int, i),
            pixel == (|i: int| px_at(orig, row_base as int, i)),
            forall|k: int| 0 <= k < data@.len() && !(row_base <= k < row_base + row_u32s) ==> #[trigger] data@[k] == orig[k],
            forall|y: int| 0 <= y < x ==> #[trigger] px_at(data@, row_base as int, y) == smear_max(pixel, y, shift as int, bold as int),
            forall|y: int| x <= y < 8 * row_u32s ==> #[trigger] px_at(data@, row_base as int, y) == 0,
        decreases cell_width - x,
    {
        let mut idx: u8 = 0;
        let mut smear: usize = 0;
        proof {
            assert forall|i: int| 0 <= i <= x implies #[trigger] pixel(i) < 16 by {
                lemma_nib_bound(orig[row_base + i / 8], (i % 8) as u32);
            }
        }
        while smear <= bold
            invariant
                0 <= smear <= bold + 1,
                bold <= 255,
                shift <= 510,
                x < cell_width,
                src.len() == cell_width,
                forall|i: int| 0 <= i < cell_width ==> #[trigger] src@[i] as u32 == px_at(orig, row_base as int, i),
                pixel == (|i: int| px_at(orig, row_base as int, i)),
                smear == 0 ==> idx == 0,
                smear > 0 ==> idx as u32 == smear_max(pixel, x as int, shift as int, smear - 1),
            decreases bold + 1 - smear,
        {
            if x >= shift + smear {
                let v = src[x - shift - smear];
                if v > idx {
                    idx = v;
                }
            }
            smear = smear + 1;
        }
        proof {
            lemma_smear_max_bound(pixel, x as int, shift as int, bold as int);
        }
        if idx != 0 {
            assert(x / 8 < row_u32s);
            assert(row_base + x / 8 < data.len());
            let k = row_base + x / 8;
            let ghost before = data@;
            let w = data[k];
            proof {
                assert(px_at(data@, row_base as int, x as int) == 0);
                assert(nib(w, (x % 8) as u32) == 0);
            }
            data[k] = w | ((idx as u32) << ((x % 8) as u32 * 4));
            proof {
                assert forall|j: u32| j < 8 implies #[trigger] nib(data@[k as int], j) == if j == (x % 8) as u32 {
                    idx as u32
                } else {
                    nib(w, j)
                } by {
                    lemma_or_into_empty_nibble(w, (x % 8) as u32, idx as u32, j);
                }
                assert forall|y: int| 0 <= y < 8 * row_u32s && y != x implies #[trigger] px_at(data@, row_base as int, y) == px_at(before, row_base as int, y) by {
                    if row_base + y / 8 == k {
                        assert((y % 8) as u32 != (x % 8) as u32);
                    }
                }
                assert forall|y: int| 0 <= y < x implies #[trigger] px_at(data@, row_base as int, y) == smear_max(pixel, y, shift as int, bold as int) by {
                    assert(px_at(before, row_base as int, y) == smear_max(pixel, y, shift as int, bold as int));
                    assert(px_at(data@, row_base as int, y) == px_at(before, row_base as int, y));
                }
                assert forall|y: int| x < y < 8 * row_u32s implies #[trigger] px_at(data@, row_base as int, y) == 0 by {
                    assert(px_at(before, row_base as int, y) == 0);
                    assert(px_at(data@, row_base as int, y) == px_at(before, row_base as int, y));
                }
                assert(px_at(data@, row_base as int, x as int) == idx as u32);
            }
        }
        assert(px_at(data@, row_base as int, x as int) == smear_max(pixel, x as int, shift as int, bold as int));
        x = x + 1;
    }
    proof {
        assert forall|x: int| 0 <= x < 8 * row_u32s implies #[trigger] px_at(data@, row_base as int, x) == if x
            < cell_width {
            styled_px(orig, row_base as int, x, shift as int, bold as int)
        } else {
            0
        } by {
            if x < cell_width {
                assert(styled_px(orig, row_base as int, x, shift as int, bold as int) == smear_max(pixel, x, shift as int, bold as int));
            }
        }
    }
}


/// What styling makes of row `r` (counted over all glyphs) of packed glyph
/// data: pixel `x` of the row becomes the styled pixel inside the cell and 0
/// in the padding past it.
pub open spec fn styled_row_ok(
    out: Seq<u32>,
    orig: Seq<u32>,
    r: int,
    row_u32s: int,
    cell_width: int,
    cell_height: int,
    italic: int,
    bold: int,
) -> bool {
    forall|x: int|
        0 <= x < 8 * row_u32s ==> #[trigger] px_at(out, r * row_u32s, x) == if x < cell_width {
            styled_px(orig, r * row_u32s, x, band_shift(r % cell_height, cell_height, italic), bold)
        } else {
            0
        }
}

/// Applies the naive italic shear and bold smear to packed glyph data in place.
///
/// Rows `[0, h/3)` shift right by `2 * italic` px and rows `[h/3, 2*(h/3))` by
/// `italic` px; the remaining rows (the bottom band absorbs any remainder) stay
/// put. Each output pixel then becomes the max palette index over itself and
/// its `bold` left neighbours. Ink pushed past `cell_width` is clipped.
pub fn apply_style(data: &mut [u32], cell_width: u8, cell_height: u8, glyph_count: usize, italic: u8, bold: u8)
    requires
        glyph_count * (((cell_width as int + 7) / 8) * cell_height) <= old(data)@.len(),
    ensures
        final(data)@.len() == old(data)@.len(),
        italic == 0 && bold == 0 ==> final(data)@ == old(data)@,
        !(italic == 0 && bold == 0) ==> {
            let ru = (cell_width as int + 7) / 8;
            &&& forall|r: int|
                0 <= r < glyph_count * cell_height ==> #[trigger] styled_row_ok(
                    final(data)@,
                    old(data)@,
                    r,
                    ru,
                    cell_width as int,
                    cell_height as int,
                    italic as int,
                    bold as int,
                )
            &&& forall|j: int|
                glyph_count * cell_height * ru <= j < old(data)@.len() ==> #[trigger] final(data)@[j]
                    == old(data)@[j]
        },
{
    if italic == 0 && bold == 0 {
        return ;
    }
    let ghost orig = data@;
    let cw = cell_width as usize;
    let ch = cell_height as usize;
    let row_u32s = (cw + 7) / 8;
    proof {
        assert(row_u32s * ch <= 32 * 255) by (nonlinear_arith)
            requires
                row_u32s <= 32,
                ch <= 255,
        ;
    }
    let glyph_size = row_u32s * ch;
    let third = ch / 3;
    let data_len = data.len();
    proof {
        assert(glyph_count * ch * row_u32s == glyph_count * glyph_size) by (nonlinear_arith)
            requires
                glyph_size == row_u32s * ch,
        ;
    }
    let mut glyph_idx: usize = 0;
    while glyph_idx < glyph_count
        invariant
            0 <= glyph_idx <= glyph_count,
            cw == cell_width,
            ch == cell_height,
            row_u32s == (cw + 7) / 8,
            glyph_size == row_u32s * ch,
            third == ch / 3,
            glyph_count * glyph_size <= orig.len(),
            glyph_count * ch * row_u32s == glyph_count * glyph_size,
            data@.len() == orig.len(),
            data_len == orig.len(),
            forall|r: int|
                0 <= r < glyph_idx * ch ==> #[trigger] styled_row_ok(
                    data@,
                    orig,
                    r,
                    row_u32s as int,
                    cw as int,
                    ch as int,
                    italic as int,
                    bold as int,
                ),
            forall|j: int| glyph_idx * ch * row_u32s <= j < orig.len() ==> #[trigger] data@[j] == orig[j],
        decreases glyph_count - glyph_idx,
    {
        let mut row: usize = 0;
        while row < ch
            invariant
                0 <= row <= ch,
                glyph_idx < glyph_count,
                cw == cell_width,
                ch == cell_height,
                row_u32s == (cw + 7) / 8,
                glyph_size == row_u32s * ch,
                third == ch / 3,
                glyph_count * glyph_size <= orig.len(),
                glyph_count * ch * row_u32s == glyph_count * glyph_size,
                data@.len() == orig.len(),
                data_len == orig.len(),
                forall|r: int|
                    0 <= r < glyph_idx * ch + row ==> #[trigger] styled_row_ok(
                        data@,
                        orig,
                        r,
                        row_u32s as int,
                        cw as int,
                        ch as int,
                        italic as int,
                        bold as int,
                    ),
                forall|j: int|
                    (glyph_idx * ch + row) * row_u32s <= j < orig.len() ==> #[trigger] data@[j] == orig[j],
            decreases ch - row,
        {
            let shift: usize = if row < third {
                2 * italic as usize
            } else if row < 2 * third {
                italic as usize
            } else {
                0
            };
            let ghost r = glyph_idx * ch + row;
            proof {
                assert(r * row_u32s == glyph_idx * glyph_size + row * row_u32s) by (nonlinear_arith)
                    requires
                        r == glyph_idx * ch + row,
                        glyph_size == row_u32s * ch,
                ;
                assert((r + 1) * row_u32s <= glyph_count * ch * row_u32s) by (nonlinear_arith)
                    requires
                        r == glyph_idx * ch + row,
                        row < ch,
                        glyph_idx < glyph_count,
                        row_u32s >= 0,
                ;
                assert((r + 1) * row_u32s == r * row_u32s + row_u32s) by (nonlinear_arith);
                assert(r % (ch as int) == row) by (nonlinear_arith)
                    requires
                        r == glyph_idx * ch + row,
                        row < ch,
                        glyph_idx >= 0,
                ;
                assert(shift == band_shift(row as int, ch as int, italic as int));
            }
            proof {
                assert(glyph_idx * glyph_size <= glyph_count * glyph_size) by (nonlinear_arith)
                    requires
                        glyph_idx < glyph_count,
                ;
                assert(row * row_u32s <= glyph_size) by (nonlinear_arith)
                    requires
                        row < ch,
                        glyph_size == row_u32s * ch,
                ;
            }
            let row_base = glyph_idx * glyph_size + row * row_u32s;
            let ghost before = data@;
            style_row(data, row_base, row_u32s, cw, shift, bold as usize);
            proof {
                let rb = row_base as int;
                assert forall|r2: int|
                    0 <= r2 < glyph_idx * ch + row + 1 implies #[trigger] styled_row_ok(
                    data@,
                    orig,
                    r2,
                    row_u32s as int,
                    cw as int,
                    ch as int,
                    italic as int,
                    bold as int,
                ) by {
                    if r2 < r {
                        assert(styled_row_ok(before, orig, r2, row_u32s as int, cw as int, ch as int, italic as int, bold as int));
                        assert((r2 + 1) * row_u32s <= r * row_u32s) by (nonlinear_arith)
                            requires
                                r2 < r,
                                row_u32s >= 0,
                        ;
                        assert((r2 + 1) * row_u32s == r2 * row_u32s + row_u32s) by (nonlinear_arith);
                        assert forall|x: int| 0 <= x < 8 * row_u32s implies #[trigger] px_at(data@, r2 * row_u32s, x) == px_at(before, r2 * row_u32s, x) by {
                            assert(data@[r2 * row_u32s + x / 8] == before[r2 * row_u32s + x / 8]);
                        }
                    } else {
                        assert(r2 == r);
                        assert forall|x: int| 0 <= x < 8 * row_u32s implies #[trigger] px_at(data@, r2 * row_u32s, x) == if x < cw {
                            styled_px(orig, r2 * row_u32s, x, band_shift(r2 % (ch as int), ch as int, italic as int), bold as int)
                        } else {
                            0
                        } by {
                            if x < cw {
                                let p1 = |i: int| px_at(before, rb, i);
                                let p2 = |i: int| px_at(orig, rb, i);
                                assert forall|i: int| 0 <= i <= x implies #[trigger] p1(i) == p2(i) by {
                                    assert(before[rb + i / 8] == orig[rb + i / 8]);
                                }
                                lemma_smear_max_agree(p1, p2, x, shift as int, bold as int);
                            }
                        }
                    }
                }
                assert forall|j: int| (glyph_idx * ch + row + 1) * row_u32s <= j < orig.len() implies #[trigger] data@[j] == orig[j] by {
                    assert(before[j] == orig[j]);
                }
            }
            row = row + 1;
        }
        proof {
            assert((glyph_idx + 1) * ch == glyph_idx * ch + ch) by (nonlinear_arith);
        }
        glyph_idx = glyph_idx + 1;
    }
}


/// An RGBA8 sheet image: `width * height` pixels, four bytes each, row-major.
pub struct SheetImage {
    pub width: u32,
    pub height: u32,
    pub rgba: Vec<u8>,
}

impl SheetImage {
    /// The buffer holds exactly the image's pixels.
    pub open spec fn wf(&self) -> bool {
        self.rgba.len() == 4 * self.width * self.height
    }

    /// Palette index of the pixel at `(x, y)`.
    pub open spec fn index_at(&self, x: int, y: int) -> u32 {
        let at = 4 * (y * self.width + x);
        palette_index(self.rgba@[at], self.rgba@[at + 1], self.rgba@[at + 2], self.rgba@[at + 3])
            as u32
    }
}

/// Palette index of an RGBA pixel: transparent (0) below 50% alpha, else the
/// luma band `luma >> 4`, luma weighted 299/587/114 per mille.
pub open spec fn palette_index(r: u8, g: u8, b: u8, a: u8) -> int {
    if a < 128 {
        0
    } else {
        ((r as int * 299 + g as int * 587 + b as int * 114) / 1000) / 16
    }
}

/// Palette index of one RGBA pixel
pub fn pixel_to_index(pixel: [u8; 4]) -> (r: u8)
    ensures
        r as int == palette_index(pixel@[0], pixel@[1], pixel@[2], pixel@[3]),
        r < 16,
{
    if pixel[3] < 128 {
        return 0;
    }
    let luma = (pixel[0] as u32 * 299 + pixel[1] as u32 * 587 + pixel[2] as u32 * 114) / 1000;
    (luma / 16) as u8
}

/// One packed row word: pixels `x_start..x_start + 8` of image row `y`, each
/// clipped to 0 at or past `x_limit`.
fn pack_word(img: &SheetImage, y: usize, x_start: usize, x_limit: usize) -> (r: u32)
    requires
        img.wf(),
        y < img.height,
        x_limit <= img.width,
    ensures
        forall|px: u32|
            px < 8 ==> #[trigger] nib(r, px) == if x_start + px < x_limit {
                img.index_at(x_start + px, y as int)
            } else {
                0
            },
{
    let mut val: u32 = 0;
    let mut px: usize = 0;
    proof {
        assert forall|j: u32| j < 8 implies #[trigger] nib(0u32, j) == 0 by {
            assert((0u32 >> (4 * j)) & 0xF == 0) by (bit_vector);
        }
    }
    while px < 8
        invariant
            0 <= px <= 8,
            img.wf(),
            y < img.height,
            x_limit <= img.width,
            forall|j: u32|
                j < 8 ==> #[trigger] nib(val, j) == if j < px && x_start + j < x_limit {
                    img.index_at(x_start + j, y as int)
                } else {
                    0
                },
        decreases 8 - px,
    {
        if x_start < x_limit && px < x_limit - x_start {
            let x = x_start + px;
            proof {
                assert(y * img.width + x < img.width * img.height) by (nonlinear_arith)
                    requires
                        y < img.height,
                        x < img.width,
                ;
                assert(4 * img.width * img.height == 4 * (img.width * img.height)) by (nonlinear_arith);
                assert(4 * (y * img.width + x) + 3 < img.rgba.len());
            }
            let at = 4 * (y * img.width as usize + x);
            let pixel = [img.rgba[at], img.rgba[at + 1], img.rgba[at + 2], img.rgba[at + 3]];
            let idx = pixel_to_index(pixel) as u32;
            let ghost before = val;
            proof {
                assert(nib(val, px as u32) == 0);
            }
            val = val | (idx << (px as u32 * 4));
            proof {
                assert forall|j: u32| j < 8 implies #[trigger] nib(val, j) == if j < px + 1 && x_start + j < x_limit {
                    img.index_at(x_start + j, y as int)
                } else {
                    0
                } by {
                    lemma_or_into_empty_nibble(before, px as u32, idx, j);
                }
            }
        }
        px = px + 1;
    }
    val
}


/// First word of row `row` of glyph `g` in packed glyph data with cells
/// `cell_height` rows tall and `row_u32s` words wide.
pub open spec fn glyph_row_base(g: int, row: int, cell_height: int, row_u32s: int) -> int {
    (g * cell_height + row) * row_u32s
}

/// Palette index that sheet extraction gives pixel `x` of row `row` of glyph
/// `g`: the sheet pixel of the glyph's cell inside the cell width, 0 past it.
pub open spec fn sheet_px(
    img: &SheetImage,
    cell_width: int,
    cell_height: int,
    sheet_cols: int,
    g: int,
    row: int,
    x: int,
) -> u32 {
    if x < cell_width {
        img.index_at((g % sheet_cols) * cell_width + x, (g / sheet_cols) * cell_height + row)
    } else {
        0
    }
}

/// Word `w` of row `row` of glyph `g` packs the sheet pixels of its cell.
pub open spec fn sheet_word_ok(
    word: u32,
    img: &SheetImage,
    cell_width: int,
    cell_height: int,
    sheet_cols: int,
    g: int,
    row: int,
    w: int,
) -> bool {
    forall|px: u32|
        px < 8 ==> #[trigger] nib(word, px) == sheet_px(img, cell_width, cell_height, sheet_cols, g, row, w * 8 + px)
}

proof fn lemma_row_base_bounds(g: int, row: int, w: int, ch: int, ru: int, gc: int)
    requires
        0 <= g < gc,
        0 <= row < ch,
        0 <= w < ru,
    ensures
        0 <= glyph_row_base(g, row, ch, ru) + w < gc * ch * ru,
        glyph_row_base(g, row, ch, ru) + w == (g * ch + row) * ru + w,
{
    assert(0 <= (g * ch + row) * ru) by (nonlinear_arith)
        requires
            0 <= g,
            0 <= row,
            0 <= ru,
            0 <= ch,
    ;
    assert((g * ch + row) * ru + w < gc * ch * ru) by (nonlinear_arith)
        requires
            0 <= g < gc,
            0 <= row < ch,
            0 <= w < ru,
    ;
}

proof fn lemma_row_base_order(g1: int, r1: int, w1: int, g2: int, r2: int, w2: int, ch: int, ru: int)
    requires
        0 <= g1,
        0 <= r1 < ch,
        0 <= w1 < ru,
        0 <= g2,
        0 <= r2 < ch,
        0 <= w2 < ru,
        glyph_row_base(g1, r1, ch, ru) + w1 == glyph_row_base(g2, r2, ch, ru) + w2,
    ensures
        g1 == g2 && r1 == r2 && w1 == w2,
{
    assert(g1 * ch + r1 == g2 * ch + r2 && w1 == w2) by (nonlinear_arith)
        requires
            (g1 * ch + r1) * ru + w1 == (g2 * ch + r2) * ru + w2,
            0 <= w1 < ru,
            0 <= w2 < ru,
            0 <= g1 * ch + r1,
            0 <= g2 * ch + r2,
    ;
    assert(g1 == g2 && r1 == r2) by (nonlinear_arith)
        requires
            g1 * ch + r1 == g2 * ch + r2,
            0 <= r1 < ch,
            0 <= r2 < ch,
    ;
}

/// Packs the glyphs of a sheet into 4bpp glyph data: glyph `g` is the cell at
/// column `g % sheet_cols` and row `g / sheet_cols` of the sheet; each cell row
/// becomes `(cell_width + 7) / 8` words, pixel 0 in the lowest nibble, pixels
/// past the cell width 0
pub fn extract_glyph_data(img: &SheetImage, cell_width: u8, cell_height: u8, sheet_cols: usize, glyph_count: usize) -> (r: Vec<u32>)
    requires
        img.wf(),
        sheet_cols > 0,
        cell_width as int * sheet_cols <= img.width,
        cell_height as int * ((glyph_count + sheet_cols - 1) / sheet_cols as int) <= img.height,
        glyph_count * (((cell_width as int + 7) / 8) * cell_height) <= usize::MAX,
    ensures
        r.len() == glyph_count * (((cell_width as int + 7) / 8) * cell_height),
        forall|g: int, row: int, x: int|
            0 <= g < glyph_count && 0 <= row < cell_height && 0 <= x < 8 * ((cell_width as int + 7) / 8)
                ==> #[trigger] px_at(
                r@,
                glyph_row_base(g, row, cell_height as int, (cell_width as int + 7) / 8),
                x,
            ) == sheet_px(img, cell_width as int, cell_height as int, sheet_cols as int, g, row, x),
{
    let cw = cell_width as usize;
    let ch = cell_height as usize;
    let row_u32s = (cw + 7) / 8;
    proof {
        assert(row_u32s * ch <= 32 * 255) by (nonlinear_arith)
            requires
                row_u32s <= 32,
                ch <= 255,
        ;
        assert(glyph_count * ch * row_u32s == glyph_count * (row_u32s * ch)) by (nonlinear_arith);
    }
    let glyph_size = row_u32s * ch;
    let mut data: Vec<u32> = Vec::new();
    let mut glyph_idx: usize = 0;
    assert(0 * ch * row_u32s == 0) by (nonlinear_arith);
    while glyph_idx < glyph_count
        invariant
            0 <= glyph_idx <= glyph_count,
            img.wf(),
            sheet_cols > 0,
            cw == cell_width,
            ch == cell_height,
            row_u32s == (cw + 7) / 8,
            glyph_size == row_u32s * ch,
            cw * sheet_cols <= img.width,
            ch * ((glyph_count + sheet_cols - 1) / sheet_cols as int) <= img.height,
            glyph_count * glyph_size <= usize::MAX,
            glyph_count * ch * row_u32s == glyph_count * glyph_size,
            data.len() == glyph_idx * ch * row_u32s,
            forall|g: int, row: int, w: int|
                0 <= g < glyph_count && 0 <= row < ch && 0 <= w < row_u32s && glyph_row_base(g, row, ch as int, row_u32s as int) + w < data.len()
                    ==> sheet_word_ok(
                    #[trigger] data@[glyph_row_base(g, row, ch as int, row_u32s as int) + w],
                    img,
                    cw as int,
                    ch as int,
                    sheet_cols as int,
                    g,
                    row,
                    w,
                ),
        decreases glyph_count - glyph_idx,
    {
        let sheet_col = glyph_idx % sheet_cols;
        let sheet_row = glyph_idx / sheet_cols;
        proof {
            assert(sheet_col * cw + cw <= img.width) by (nonlinear_arith)
                requires
                    sheet_col < sheet_cols,
                    cw * sheet_cols <= img.width,
            ;
            assert(sheet_row < (glyph_count + sheet_cols - 1) / sheet_cols as int) by (nonlinear_arith)
                requires
                    sheet_row == glyph_idx / sheet_cols,
                    glyph_idx < glyph_count,
                    sheet_cols > 0,
            ;
            assert(sheet_row * ch + ch <= img.height) by (nonlinear_arith)
                requires
                    sheet_row < (glyph_count + sheet_cols - 1) / sheet_cols as int,
                    ch * ((glyph_count + sheet_cols - 1) / sheet_cols as int) <= img.height,
                    ch >= 0,
            ;
        }
        let base_x = sheet_col * cw;
        let base_y = sheet_row * ch;
        let mut row: usize = 0;
        while row < ch
            invariant
                0 <= row <= ch,
                glyph_idx < glyph_count,
                img.wf(),
                sheet_cols > 0,
                cw == cell_width,
                ch == cell_height,
                row_u32s == (cw + 7) / 8,
                sheet_col == glyph_idx % sheet_cols,
                sheet_row == glyph_idx / sheet_cols,
                base_x == sheet_col * cw,
                base_y == sheet_row * ch,
                base_x + cw <= img.width,
                base_y + ch <= img.height,
                glyph_count * ch * row_u32s <= usize::MAX,
                data.len() == (glyph_idx * ch + row) * row_u32s,
                forall|g: int, row2: int, w: int|
                    0 <= g < glyph_count && 0 <= row2 < ch && 0 <= w < row_u32s && glyph_row_base(g, row2, ch as int, row_u32s as int) + w < data.len()
                        ==> sheet_word_ok(
                        #[trigger] data@[glyph_row_base(g, row2, ch as int, row_u32s as int) + w],
                        img,
                        cw as int,
                        ch as int,
                        sheet_cols as int,
                        g,
                        row2,
                        w,
                    ),
            decreases ch - row,
        {
            let mut word: usize = 0;
            while word < row_u32s
                invariant
                    0 <= word <= row_u32s,
                    row < ch,
                    glyph_idx < glyph_count,
                    img.wf(),
                    sheet_cols > 0,
                    cw == cell_width,
                    ch == cell_height,
                    row_u32s == (cw + 7) / 8,
                    sheet_col == glyph_idx % sheet_cols,
                    sheet_row == glyph_idx / sheet_cols,
                    base_x == sheet_col * cw,
                    base_y == sheet_row * ch,
                    base_x + cw <= img.width,
                    base_y + ch <= img.height,
                    glyph_count * ch * row_u32s <= usize::MAX,
                    data.len() == (glyph_idx * ch + row) * row_u32s + word,
                    forall|g: int, row2: int, w: int|
                        0 <= g < glyph_count && 0 <= row2 < ch && 0 <= w < row_u32s && glyph_row_base(g, row2, ch as int, row_u32s as int) + w < data.len()
                            ==> sheet_word_ok(
                            #[trigger] data@[glyph_row_base(g, row2, ch as int, row_u32s as int) + w],
                            img,
                            cw as int,
                            ch as int,
                            sheet_cols as int,
                            g,
                            row2,
                            w,
                        ),
                decreases row_u32s - word,
            {
                proof {
                    lemma_row_base_bounds(glyph_idx as int, row as int, word as int, ch as int, row_u32s as int, glyph_count as int);
                }
                let v = pack_word(img, base_y + row, base_x + word * 8, base_x + cw);
                let ghost before = data@;
                data.push(v);
                proof {
                    assert forall|g: int, row2: int, w: int|
                        0 <= g < glyph_count && 0 <= row2 < ch && 0 <= w < row_u32s && glyph_row_base(g, row2, ch as int, row_u32s as int) + w < data.len()
                            implies sheet_word_ok(
                            #[trigger] data@[glyph_row_base(g, row2, ch as int, row_u32s as int) + w],
                            img,
                            cw as int,
                            ch as int,
                            sheet_cols as int,
                            g,
                            row2,
                            w,
                        ) by {
                        let k = glyph_row_base(g, row2, ch as int, row_u32s as int) + w;
                        if k < before.len() {
                            assert(data@[k] == before[k]);
                        } else {
                            assert(k == glyph_row_base(glyph_idx as int, row as int, ch as int, row_u32s as int) + word);
                            lemma_row_base_order(g, row2, w, glyph_idx as int, row as int, word as int, ch as int, row_u32s as int);
                            assert forall|px: u32| px < 8 implies #[trigger] nib(v, px) == sheet_px(img, cw as int, ch as int, sheet_cols as int, g, row2, w * 8 + px) by {
                                assert(base_x + word * 8 + px < base_x + cw <==> w * 8 + px < cw);
                            }
                        }
                    }
                }
                word = word + 1;
            }
            proof {
                assert((glyph_idx * ch + row) * row_u32s + row_u32s == (glyph_idx * ch + row + 1) * row_u32s) by (nonlinear_arith);
            }
            row = row + 1;
        }
        proof {
            assert((glyph_idx * ch + ch) * row_u32s == (glyph_idx + 1) * ch * row_u32s) by (nonlinear_arith);
        }
        glyph_idx = glyph_idx + 1;
    }
    proof {
        assert forall|g: int, row: int, x: int|
            0 <= g < glyph_count && 0 <= row < cell_height && 0 <= x < 8 * row_u32s implies #[trigger] px_at(
                data@,
                glyph_row_base(g, row, cell_height as int, (cell_width as int + 7) / 8),
                x,
            ) == sheet_px(img, cell_width as int, cell_height as int, sheet_cols as int, g, row, x) by {
            let w = x / 8;
            lemma_row_base_bounds(g, row, w, ch as int, row_u32s as int, glyph_count as int);
            assert(sheet_word_ok(data@[glyph_row_base(g, row, ch as int, row_u32s as int) + w], img, cw as int, ch as int, sheet_cols as int, g, row, w));
            let px = (x % 8) as u32;
            assert(nib(data@[glyph_row_base(g, row, ch as int, row_u32s as int) + w], px) == sheet_px(img, cw as int, ch as int, sheet_cols as int, g, row, w * 8 + px));
        }
    }
    data
}


/// What `image` decodes `bytes` to when the file's extension is `extension`
/// (the format is the one the extension names, as `image::open` picks it),
/// as `(width, height, RGBA8 bytes)`, or `None` when it reports an error.
pub uninterp spec fn decoded_image(bytes: Seq<u8>, extension: Seq<char>) -> Option<(u32, u32, Seq<u8>)>;

/// The sheet that a decoded image gives.
pub open spec fn image_of(d: Option<(u32, u32, Seq<u8>)>, r: Option<(u32, u32, Vec<u8>)>) -> bool {
    match d {
        Some((w, h, px)) => r matches Some(img) && img.0 == w && img.1 == h && img.2@ == px,
        None => r is None,
    }
}

/// Decodes an image file held in memory in the format that its extension
/// names: `ImageFormat::from_extension`, then `ImageReader::with_format` and
/// `decode` (what `image::open` does with a path), converted to RGBA8 with
/// `DynamicImage::to_rgba8`, giving `(width, height, pixels)`; an unknown
/// extension is an error, as for `image::open`. The contract names the result
/// and claims nothing of the buffer length; callers check it.
#[verifier::external_body]
fn decode_image(bytes: &[u8], extension: &str) -> (r: Option<(u32, u32, Vec<u8>)>)
    ensures
        image_of(decoded_image(bytes@, extension@), r),
{
    let format = image::ImageFormat::from_extension(extension)?;
    let img = image::ImageReader::with_format(std::io::Cursor::new(bytes), format).decode().ok()?;
    let rgba = img.to_rgba8();
    Some((rgba.width(), rgba.height(), rgba.into_raw()))
}

/// The sheet of `width * height` RGBA8 pixels held in `rgba`; `None` when
/// the buffer does not hold exactly that many pixels
pub fn sheet_from_rgba(width: u32, height: u32, rgba: Vec<u8>) -> (r: Option<SheetImage>)
    ensures
        rgba@.len() == 4 * width * height <==> r is Some,
        r matches Some(img) ==> img.wf() && img.width == width && img.height == height && img.rgba@ == rgba@,
{
    let w: u128 = width as u128;
    let h: u128 = height as u128;
    assert(4 * w * h < 0x1_0000_0000_0000_0000_0000) by (nonlinear_arith)
        requires
            w < 0x1_0000_0000,
            h < 0x1_0000_0000,
    ;
    if rgba.len() as u128 == 4 * w * h {
        Some(SheetImage { width, height, rgba })
    } else {
        None
    }
}

/// ASCII lower case of a byte.
pub open spec fn ascii_lower(b: u8) -> u8 {
    if 65 <= b <= 90 {
        (b + 32) as u8
    } else {
        b
    }
}

/// `a` equals `b` ignoring ASCII case.
pub open spec fn eq_ignore_ascii_case(a: Seq<u8>, b: Seq<u8>) -> bool {
    a.len() == b.len() && forall|i: int| 0 <= i < a.len() ==> ascii_lower(#[trigger] a[i]) == ascii_lower(b[i])
}

fn bytes_eq_ignore_ascii_case(a: &[u8], b: &[u8]) -> (r: bool)
    ensures
        r == eq_ignore_ascii_case(a@, b@),
{
    if a.len() != b.len() {
        return false;
    }
    let mut i: usize = 0;
    while i < a.len()
        invariant
            0 <= i <= a.len(),
            a.len() == b.len(),
            forall|j: int| 0 <= j < i ==> ascii_lower(#[trigger] a@[j]) == ascii_lower(b@[j]),
        decreases a.len() - i,
    {
        let x = if 65 <= a[i] && a[i] <= 90 { a[i] + 32 } else { a[i] };
        let y = if 65 <= b[i] && b[i] <= 90 { b[i] + 32 } else { b[i] };
        if x != y {
            return false;
        }
        i = i + 1;
    }
    true
}

/// The file extension names an Aseprite file (`aseprite` or `ase`, any case).
pub open spec fn is_aseprite_extension(ext: Seq<u8>) -> bool {
    eq_ignore_ascii_case(ext, seq![97u8, 115, 101, 112, 114, 105, 116, 101]) || eq_ignore_ascii_case(
        ext,
        seq![97u8, 115, 101],
    )
}

/// Whether a sheet file with this extension is an Aseprite file
/// (`aseprite` or `ase`, any case) rather than an image
pub fn names_aseprite(extension: &[u8]) -> (r: bool)
    ensures
        r == is_aseprite_extension(extension@),
{
    let long: [u8; 8] = [97, 115, 101, 112, 114, 105, 116, 101];
    let short: [u8; 3] = [97, 115, 101];
    proof {
        assert(long@ =~= seq![97u8, 115, 101, 112, 114, 105, 116, 101]);
        assert(short@ =~= seq![97u8, 115, 101]);
    }
    bytes_eq_ignore_ascii_case(extension, long.as_slice()) || bytes_eq_ignore_ascii_case(extension, short.as_slice())
}

/// Decodes an image sheet file held in memory through `image`, in the
/// format that the file's extension names. `None` when decoding fails (an
/// unknown extension among the causes) or the decoded buffer does not hold
/// exactly `width * height` pixels
pub fn open_image(bytes: &[u8], extension: &str) -> (r: Option<SheetImage>)
    ensures
        r matches Some(img) ==> img.wf(),
        match decoded_image(bytes@, extension@) {
            Some((w, h, px)) => if px.len() == 4 * w * h {
                r matches Some(img) && img.width == w && img.height == h && img.rgba@ == px
            } else {
                r is None
            },
            None => r is None,
        },
{
    match decode_image(bytes, extension) {
        Some((width, height, rgba)) => sheet_from_rgba(width, height, rgba),
        None => None,
    }
}

} // verus!

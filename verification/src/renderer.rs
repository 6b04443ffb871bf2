use vstd::prelude::*;
use crate::font::AgbFont;
use crate::pixels::{blit_pixel_row_arm, nib};
use crate::text_format::TextAlign;
use crate::tiles::{
    lemma_screen_push_blank, lemma_screen_px_at, lemma_screen_update, lemma_shl_pixels, lemma_shr_pixels,
    lemma_tile_coord, screen_px, tile_is_at, tile_px, unique_tiles, TileRows,
};

verus! {

/// Horizontal offset of a line `line_w` pixels wide: 0 for left alignment,
/// half the free space of the column when centred (rounded down), all of it
/// when right-aligned; no free space gives 0.
pub open spec fn x_offset_spec(line_w: int, alignment: TextAlign) -> int {
    match alignment {
        TextAlign::Left => 0,
        TextAlign::Center(column_w) => if column_w > line_w {
            (column_w - line_w) / 2
        } else {
            0
        },
        TextAlign::Right(column_w) => if column_w > line_w {
            column_w - line_w
        } else {
            0
        },
    }
}

/// Horizontal offset of a line `line_w` pixels wide inside its column
pub fn x_offset(line_w: u32, alignment: TextAlign) -> (r: i32)
    ensures
        r == x_offset_spec(line_w as int, alignment),
        0 <= r <= 65535,
{
    match alignment {
        TextAlign::Left => 0,
        TextAlign::Center(column_w) => {
            let gap = (column_w as u32).saturating_sub(line_w);
            (gap / 2) as i32
        },
        TextAlign::Right(column_w) => (column_w as u32).saturating_sub(line_w) as i32,
    }
}

/// Tile positions fit the pixel coordinates they come from.
pub open spec fn tiles_in_range(tiles: Seq<TileRows>) -> bool {
    forall|i: int|
        0 <= i < tiles.len() ==> -0x1000_0000 <= #[trigger] tiles[i].0 < 0x1000_0000 && -0x1000_0000 <= tiles[i].1
            < 0x1000_0000
}

/// Pixel `(x, y)` lies in the rectangle at `pos` of `size` pixels.
pub open spec fn in_rect(pos: (i32, i32), size: (i32, i32), x: int, y: int) -> bool {
    pos.0 <= x < pos.0 + size.0 && pos.1 <= y < pos.1 + size.1
}

/// Mask of the pixels `n_start..=n_end` of a packed row.
pub open spec fn span_mask(n_start: u32, n_end: u32) -> u32 {
    let n_count = (n_end - n_start + 1) as u32;
    if n_count >= 8 {
        0xffff_ffffu32
    } else {
        (((1u32 << ((n_count * 4) as u32)) - 1) as u32) << ((n_start * 4) as u32)
    }
}

/// A row with pixels `n_start..=n_end` cleared keeps every other pixel.
proof fn lemma_clear_span(row: u32, mask: u32, n_start: u32, n_end: u32, k: u32)
    requires
        n_start <= n_end < 8,
        k < 8,
        mask == span_mask(n_start, n_end),
    ensures
        nib(row & !mask, k) == if n_start <= k <= n_end {
            0
        } else {
            nib(row, k)
        },
{
    assert(((row & !mask) >> (4 * k)) & 0xF == if n_start <= k <= n_end {
        0
    } else {
        (row >> (4 * k)) & 0xF
    }) by (bit_vector)
        requires
            n_start <= n_end < 8,
            k < 8,
            mask == span_mask(n_start, n_end),
    ;
}

/// Clears the pixels of the tracked tiles that lie in the rectangle at `pos`
/// of `size` pixels; tiles outside the pool are not created. A rectangle
/// without area clears nothing.
pub fn clear_rect_in_tiles(tiles: &mut Vec<TileRows>, pos: (i32, i32), size: (i32, i32))
    requires
        tiles_in_range(old(tiles)@),
        -0x4000_0000 <= pos.0 < 0x4000_0000,
        -0x4000_0000 <= pos.1 < 0x4000_0000,
        size.0 < 0x4000_0000,
        size.1 < 0x4000_0000,
    ensures
        final(tiles)@.len() == old(tiles)@.len(),
        forall|i: int|
            #![trigger final(tiles)@[i]]
            0 <= i < old(tiles)@.len() ==> final(tiles)@[i].0 == old(tiles)@[i].0 && final(tiles)@[i].1 == old(tiles)@[i].1
                && final(tiles)@[i].3 == old(tiles)@[i].3,
        forall|i: int, x: int, y: int|
            0 <= i < old(tiles)@.len() && 0 <= x < 8 && 0 <= y < 8 ==> #[trigger] tile_px(final(tiles)@[i].2, x, y)
                == if in_rect(pos, size, old(tiles)@[i].0 * 8 + x, old(tiles)@[i].1 * 8 + y) {
                0
            } else {
                tile_px(old(tiles)@[i].2, x, y)
            },
{
    let ghost orig = tiles@;
    if size.0 <= 0 || size.1 <= 0 {
        return ;
    }
    let px_end = pos.0 + size.0 - 1;
    let py_end = pos.1 + size.1 - 1;
    let tile_x_start = pos.0 >> 3;
    let tile_x_end = px_end >> 3;
    let tile_y_start = pos.1 >> 3;
    let tile_y_end = py_end >> 3;
    proof {
        lemma_tile_coord(pos.0);
        lemma_tile_coord(pos.1);
        lemma_tile_coord(px_end);
        lemma_tile_coord(py_end);
    }
    let mut i: usize = 0;
    while i < tiles.len()
        invariant
            0 <= i <= tiles.len(),
            tiles@.len() == orig.len(),
            tiles_in_range(orig),
            0 < size.0 < 0x4000_0000,
            0 < size.1 < 0x4000_0000,
            px_end == pos.0 + size.0 - 1,
            py_end == pos.1 + size.1 - 1,
            -0x4000_0000 <= pos.0 < 0x4000_0000,
            -0x4000_0000 <= pos.1 < 0x4000_0000,
            tile_x_start == pos.0 / 8,
            tile_x_end == px_end / 8,
            tile_y_start == pos.1 / 8,
            tile_y_end == py_end / 8,
            forall|j: int|
                0 <= j < orig.len() ==> #[trigger] tiles@[j].0 == orig[j].0 && tiles@[j].1 == orig[j].1 && tiles@[j].3
                    == orig[j].3,
            forall|j: int| i <= j < orig.len() ==> #[trigger] tiles@[j] == orig[j],
            forall|j: int, x: int, y: int|
                0 <= j < i && 0 <= x < 8 && 0 <= y < 8 ==> #[trigger] tile_px(tiles@[j].2, x, y) == if in_rect(
                    pos,
                    size,
                    orig[j].0 * 8 + x,
                    orig[j].1 * 8 + y,
                ) {
                    0
                } else {
                    tile_px(orig[j].2, x, y)
                },
        decreases orig.len() - i,
    {
        let (tx, ty, rows, pal) = tiles[i];
        assert(tiles@[i as int] == orig[i as int]);
        if tx < tile_x_start || tx > tile_x_end || ty < tile_y_start || ty > tile_y_end {
            proof {
                assert forall|x: int, y: int| 0 <= x < 8 && 0 <= y < 8 implies !#[trigger] in_rect(
                    pos,
                    size,
                    orig[i as int].0 * 8 + x,
                    orig[i as int].1 * 8 + y,
                ) by {}
            }
        } else {
            let tile_py0 = ty * 8;
            assert(pos.1 - 7 <= tile_py0 <= py_end);
            assert(pos.0 - 7 <= tx * 8 <= px_end);
            let row_start: usize = if pos.1 - tile_py0 > 0 { (pos.1 - tile_py0) as usize } else { 0 };
            let row_end: usize = if py_end - tile_py0 < 7 { (py_end - tile_py0) as usize } else { 7 };
            let tile_px0 = tx * 8;
            let n_start: u32 = if pos.0 - tile_px0 > 0 { (pos.0 - tile_px0) as u32 } else { 0 };
            let n_end: u32 = if px_end - tile_px0 < 7 { (px_end - tile_px0) as u32 } else { 7 };
            let n_count = n_end - n_start + 1;
            let mask: u32 = if n_count >= 8 {
                0xffff_ffff
            } else {
                assert(1u32 << (n_count * 4) >= 1) by (bit_vector)
                    requires
                        n_count < 8,
                ;
                ((1u32 << (n_count * 4)) - 1) << (n_start * 4)
            };
            let mut new_rows = rows;
            let mut r: usize = row_start;
            while r <= row_end
                invariant
                    row_start <= r <= row_end + 1,
                    row_end <= 7,
                    n_start <= n_end < 8,
                    n_count == n_end - n_start + 1,
                    mask == span_mask(n_start, n_end),
                    forall|y: int| 0 <= y < 8 && !(row_start <= y < r) ==> #[trigger] new_rows@[y] == rows@[y],
                    forall|y: int| row_start <= y < r ==> #[trigger] new_rows@[y] == rows@[y] & !mask,
                decreases row_end + 1 - r,
            {
                new_rows[r] = new_rows[r] & !mask;
                r = r + 1;
            }
            tiles.set(i, (tx, ty, new_rows, pal));
            proof {
                assert forall|x: int, y: int| 0 <= x < 8 && 0 <= y < 8 implies #[trigger] tile_px(tiles@[i as int].2, x, y)
                    == if in_rect(pos, size, orig[i as int].0 * 8 + x, orig[i as int].1 * 8 + y) {
                    0
                } else {
                    tile_px(orig[i as int].2, x, y)
                } by {
                    if row_start <= y <= row_end {
                        lemma_clear_span(rows@[y], mask, n_start, n_end, x as u32);
                    }
                }
            }
        }
        i = i + 1;
    }
}

/// Every pixel of the rows is transparent.
pub open spec fn blank_rows(rows: [u32; 8]) -> bool {
    forall|k: int| 0 <= k < 8 ==> #[trigger] rows@[k] == 0
}

/// A cache entry names the tile it remembers.
pub open spec fn cache_ok(tiles: Seq<TileRows>, cache: Option<(i32, i32, usize)>) -> bool {
    cache matches Some((cx, cy, ci)) ==> tile_is_at(tiles, ci as int, cx as int, cy as int)
}

/// Index of the tile at `(tx, ty)`, added blank with palette `pal` at the
/// end when there is none; `cache` remembers the last tile found and is
/// tried first
pub fn ensure_staged_idx(
    staged: &mut Vec<TileRows>,
    tx: i32,
    ty: i32,
    cache: &mut Option<(i32, i32, usize)>,
    pal: u8,
) -> (r: usize)
    requires
        unique_tiles(old(staged)@),
        cache_ok(old(staged)@, *old(cache)),
    ensures
        unique_tiles(final(staged)@),
        tile_is_at(final(staged)@, r as int, tx as int, ty as int),
        *final(cache) == Some((tx, ty, r)),
        (exists|i: int| #[trigger] tile_is_at(old(staged)@, i, tx as int, ty as int))
            ==> final(staged)@ == old(staged)@,
        !(exists|i: int| #[trigger] tile_is_at(old(staged)@, i, tx as int, ty as int)) ==> {
            &&& final(staged)@.len() == old(staged)@.len() + 1
            &&& final(staged)@.drop_last() == old(staged)@
            &&& final(staged)@.last().0 == tx && final(staged)@.last().1 == ty
            &&& final(staged)@.last().3 == pal
            &&& blank_rows(final(staged)@.last().2)
        },
{
    if let Some((cx, cy, cidx)) = *cache {
        if cx == tx && cy == ty {
            return cidx;
        }
    }
    let mut k: usize = staged.len();
    while k > 0
        invariant
            0 <= k <= staged.len(),
            staged@ == old(staged)@,
            unique_tiles(staged@),
            forall|j: int| k <= j < staged.len() ==> !#[trigger] tile_is_at(staged@, j, tx as int, ty as int),
        decreases k,
    {
        let (x, y, _, _) = staged[k - 1];
        if x == tx && y == ty {
            assert(tile_is_at(old(staged)@, k - 1, tx as int, ty as int));
            *cache = Some((tx, ty, k - 1));
            return k - 1;
        }
        k = k - 1;
    }
    let ghost before = staged@;
    let blank: [u32; 8] = [0u32; 8];
    staged.push((tx, ty, blank, pal));
    proof {
        assert(staged@.drop_last() =~= before);
        assert forall|i: int, j: int|
            0 <= i < staged@.len() && 0 <= j < staged@.len() && i != j implies (#[trigger] staged@[i].0, staged@[i].1)
            != (#[trigger] staged@[j].0, staged@[j].1) by {
            if i < before.len() && j < before.len() {
                assert(staged@[i] == before[i] && staged@[j] == before[j]);
            } else if i < before.len() {
                assert(!tile_is_at(before, i, tx as int, ty as int));
            } else {
                assert(!tile_is_at(before, j, tx as int, ty as int));
            }
        }
    }
    let pos = staged.len() - 1;
    *cache = Some((tx, ty, pos));
    pos
}

/// Pixel `(gx, gy)` of a glyph whose rows are `ru` words wide and `h` rows
/// tall; 0 (transparent) outside it.
pub open spec fn glyph_px(glyph: Seq<u32>, ru: int, h: int, gx: int, gy: int) -> u32 {
    if 0 <= gx < 8 * ru && 0 <= gy < h {
        nib(glyph[gy * ru + gx / 8], (gx % 8) as u32)
    } else {
        0
    }
}

/// Screen pixel `(x, y)` once the glyph is drawn with its top-left pixel at
/// `(px, py)` over `before`: inked glyph pixels replace what is under them.
pub open spec fn drawn_px(before: Seq<TileRows>, glyph: Seq<u32>, ru: int, h: int, px: int, py: int, x: int, y: int) -> u32 {
    let g = glyph_px(glyph, ru, h, x - px, y - py);
    if g != 0 {
        g
    } else {
        screen_px(before, x, y)
    }
}

/// Glyph pixel `(gx, gy)` is drawn once columns of words `0..c` and rows
/// `0..r` of word column `c` are.
pub open spec fn blit_done(c: int, r: int, gx: int, gy: int) -> bool {
    0 <= gx && (gx / 8 < c || (gx / 8 == c && gy < r))
}

/// Screen pixel `(x, y)` part way through drawing a glyph (see `blit_done`).
pub open spec fn partial_px(
    before: Seq<TileRows>,
    glyph: Seq<u32>,
    ru: int,
    h: int,
    px: int,
    py: int,
    c: int,
    r: int,
    x: int,
    y: int,
) -> u32 {
    let g = glyph_px(glyph, ru, h, x - px, y - py);
    if blit_done(c, r, x - px, y - py) && g != 0 {
        g
    } else {
        screen_px(before, x, y)
    }
}

/// One packed glyph row blitted into the tile row: the left tile takes the
/// row shifted right by `s` pixels, the right tile (when `s > 0`) the pixels
/// that spill over.
proof fn lemma_blit_row_step(
    before: Seq<TileRows>,
    s0: Seq<TileRows>,
    s1: Seq<TileRows>,
    glyph: Seq<u32>,
    ru: int,
    h: int,
    px: int,
    py: int,
    c: int,
    r: int,
    li: int,
    ri: int,
    tile_x: int,
    cty: int,
    rit: int,
    s: u32,
    w: u32,
)
    requires
        unique_tiles(s0),
        forall|x: int, y: int| #[trigger] screen_px(s0, x, y) == partial_px(before, glyph, ru, h, px, py, c, r, x, y),
        tile_is_at(s0, li, tile_x, cty),
        s > 0 ==> tile_is_at(s0, ri, tile_x + 1, cty),
        0 <= c < ru,
        0 <= r < h,
        0 <= rit < 8,
        s < 8,
        8 * tile_x + s == px + 8 * c,
        8 * cty + rit == py + r,
        w == glyph[r * ru + c],
        s1.len() == s0.len(),
        forall|i: int| 0 <= i < s0.len() ==> #[trigger] s1[i].0 == s0[i].0 && s1[i].1 == s0[i].1,
        forall|i: int, k: int|
            0 <= i < s0.len() && 0 <= k < 8 && !(k == rit && (i == li || (s > 0 && i == ri))) ==> #[trigger] s1[i].2@[k]
                == s0[i].2@[k],
        forall|k: u32|
            k < 8 ==> #[trigger] nib(s1[li].2@[rit], k) == if nib(w << (4 * s), k) != 0 {
                nib(w << (4 * s), k)
            } else {
                nib(s0[li].2@[rit], k)
            },
        s > 0 ==> forall|k: u32|
            k < 8 ==> #[trigger] nib(s1[ri].2@[rit], k) == if nib(w >> ((32 - 4 * s) as u32), k) != 0 {
                nib(w >> ((32 - 4 * s) as u32), k)
            } else {
                nib(s0[ri].2@[rit], k)
            },
    ensures
        unique_tiles(s1),
        forall|x: int, y: int| #[trigger] screen_px(s1, x, y) == partial_px(before, glyph, ru, h, px, py, c, r + 1, x, y),
{
    assert forall|a: int, b: int|
        0 <= a < s1.len() && 0 <= b < s1.len() && a != b implies (#[trigger] s1[a].0, s1[a].1) != (#[trigger] s1[b].0, s1[b].1) by {
        assert((s0[a].0, s0[a].1) != (s0[b].0, s0[b].1));
    }
    assert forall|x: int, y: int| #[trigger] screen_px(s1, x, y) == partial_px(before, glyph, ru, h, px, py, c, r + 1, x, y) by {
        let gx = x - px;
        let gy = y - py;
        let tx = x / 8;
        let ty = y / 8;
        let k = (x % 8) as u32;
        let changed = y == py + r && (tx == tile_x || (s > 0 && tx == tile_x + 1));
        assert(screen_px(s0, x, y) == partial_px(before, glyph, ru, h, px, py, c, r, x, y));
        if exists|i: int| #[trigger] tile_is_at(s1, i, tx, ty) {
            let i = choose|i: int| #[trigger] tile_is_at(s1, i, tx, ty);
            assert(tile_is_at(s0, i, tx, ty));
            lemma_screen_px_at(s1, i, x, y);
            lemma_screen_px_at(s0, i, x, y);
            if !changed {
                if y % 8 == rit && (i == li || (s > 0 && i == ri)) {
                    assert(ty == cty);
                    assert(y == py + r);
                }
                assert(s1[i].2@[y % 8] == s0[i].2@[y % 8]);
                assert(blit_done(c, r, gx, gy) == blit_done(c, r + 1, gx, gy));
            } else if tx == tile_x {
                assert(i == li) by {
                    if i != li {
                        assert((s0[i].0, s0[i].1) != (s0[li].0, s0[li].1));
                    }
                }
                lemma_shl_pixels(w, s, k);
                assert(y % 8 == rit);
                if k >= s {
                    assert(gx == 8 * c + (k - s));
                    assert(gx / 8 == c);
                    assert(gx % 8 == k - s);
                } else {
                    assert(gx < 8 * c);
                }
            } else {
                assert(i == ri) by {
                    if i != ri {
                        assert((s0[i].0, s0[i].1) != (s0[ri].0, s0[ri].1));
                    }
                }
                lemma_shr_pixels(w, s, k);
                assert(y % 8 == rit);
                assert(gx == 8 * c + 8 - s + k);
                if k < s {
                    assert(gx / 8 == c);
                    assert(gx % 8 == k + 8 - s);
                } else {
                    assert(gx / 8 == c + 1);
                }
            }
        } else {
            if exists|i: int| #[trigger] tile_is_at(s0, i, tx, ty) {
                let i = choose|i: int| #[trigger] tile_is_at(s0, i, tx, ty);
                assert(tile_is_at(s1, i, tx, ty));
            }
            assert(!changed) by {
                if changed {
                    if tx == tile_x {
                        assert(tile_is_at(s1, li, tx, ty));
                    } else {
                        assert(tile_is_at(s1, ri, tx, ty));
                    }
                }
            }
            assert(blit_done(c, r, gx, gy) == blit_done(c, r + 1, gx, gy));
        }
    }
}

/// Tile positions of pixel positions within +-2^30 fit in +-2^27.
pub open spec fn tiles_near(tiles: Seq<TileRows>) -> bool {
    forall|i: int|
        0 <= i < tiles.len() ==> -0x0800_0000 <= #[trigger] tiles[i].0 < 0x0800_0000 && -0x0800_0000 <= tiles[i].1
            < 0x0800_0000
}

/// Blits one packed glyph row into row `rit` of the left tile, shifted right
/// by `s` pixels, and when `s > 0` the pixels that spill over into the right
/// tile.
fn blit_row_pair(staged: &mut Vec<TileRows>, li: usize, ri: usize, s: u32, rit: usize, w: u32)
    requires
        li < old(staged)@.len(),
        s > 0 ==> ri < old(staged)@.len() && ri != li,
        s < 8,
        rit < 8,
    ensures
        final(staged)@.len() == old(staged)@.len(),
        forall|i: int| 0 <= i < old(staged)@.len() ==> #[trigger] final(staged)@[i].0 == old(staged)@[i].0 && final(staged)@[i].1 == old(staged)@[i].1,
        forall|i: int, k: int|
            0 <= i < old(staged)@.len() && 0 <= k < 8 && !(k == rit && (i == li || (s > 0 && i == ri))) ==> #[trigger] final(staged)@[i].2@[k]
                == old(staged)@[i].2@[k],
        forall|k: u32|
            k < 8 ==> #[trigger] nib(final(staged)@[li as int].2@[rit as int], k) == if nib(w << (4 * s), k) != 0 {
                nib(w << (4 * s), k)
            } else {
                nib(old(staged)@[li as int].2@[rit as int], k)
            },
        s > 0 ==> forall|k: u32|
            k < 8 ==> #[trigger] nib(final(staged)@[ri as int].2@[rit as int], k) == if nib(w >> ((32 - 4 * s) as u32), k) != 0 {
                nib(w >> ((32 - 4 * s) as u32), k)
            } else {
                nib(old(staged)@[ri as int].2@[rit as int], k)
            },
{
    let shift_bits = s * 4;
    let (lx, ly, lrows, lp) = staged[li];
    let mut lrows2 = lrows;
    let mut lrow = lrows2[rit];
    blit_pixel_row_arm(&mut lrow, w << shift_bits);
    lrows2[rit] = lrow;
    staged.set(li, (lx, ly, lrows2, lp));
    if s > 0 {
        let (rx, ry, rrows, rp) = staged[ri];
        let mut rrows2 = rrows;
        let mut rrow = rrows2[rit];
        blit_pixel_row_arm(&mut rrow, w >> (32 - shift_bits));
        rrows2[rit] = rrow;
        staged.set(ri, (rx, ry, rrows2, rp));
    }
}

/// Index of the staged tile at `(tx, ty)`, added blank when missing; the
/// screen is unchanged.
fn stage_tile(staged: &mut Vec<TileRows>, tx: i32, ty: i32, cache: &mut Option<(i32, i32, usize)>, other: Option<(i32, i32, usize)>) -> (r: usize)
    requires
        unique_tiles(old(staged)@),
        tiles_near(old(staged)@),
        -0x0800_0000 <= tx < 0x0800_0000,
        -0x0800_0000 <= ty < 0x0800_0000,
        cache_ok(old(staged)@, *old(cache)),
        cache_ok(old(staged)@, other),
    ensures
        unique_tiles(final(staged)@),
        tiles_near(final(staged)@),
        tile_is_at(final(staged)@, r as int, tx as int, ty as int),
        cache_ok(final(staged)@, *final(cache)),
        cache_ok(final(staged)@, other),
        final(staged)@.len() >= old(staged)@.len(),
        forall|i: int| 0 <= i < old(staged)@.len() ==> #[trigger] final(staged)@[i] == old(staged)@[i],
        forall|x: int, y: int| #[trigger] screen_px(final(staged)@, x, y) == screen_px(old(staged)@, x, y),
{
    let ghost s_a = staged@;
    let r = ensure_staged_idx(staged, tx, ty, cache, 0);
    proof {
        if !(exists|i: int| #[trigger] tile_is_at(s_a, i, tx as int, ty as int)) {
            assert(staged@ =~= s_a.push(staged@.last()));
            assert forall|x: int, y: int| #[trigger] screen_px(staged@, x, y) == screen_px(s_a, x, y) by {
                lemma_screen_push_blank(s_a, staged@.last(), x, y);
            }
            assert forall|i: int| 0 <= i < s_a.len() implies #[trigger] staged@[i] == s_a[i] by {
                assert(staged@[i] == staged@.drop_last()[i]);
            }
            assert forall|i: int| 0 <= i < staged@.len() implies -0x0800_0000 <= #[trigger] staged@[i].0 < 0x0800_0000
                && -0x0800_0000 <= staged@[i].1 < 0x0800_0000 by {
                if i < s_a.len() {
                    assert(staged@[i] == s_a[i]);
                }
            }
        }
    }
    r
}

/// Stages one glyph with its top-left pixel at `(pixel_x, pixel_y)`: each
/// packed glyph row is shifted into the tile under it and, when it straddles
/// two tiles, the next one; tiles are added blank as needed, and inked glyph
/// pixels replace the staged pixels under them
pub fn blit_glyph_staged<T: AgbFont>(
    glyph: &[u32],
    font: &T,
    staged: &mut Vec<TileRows>,
    pixel_x: i32,
    pixel_y: i32,
    left_cache: &mut Option<(i32, i32, usize)>,
    right_cache: &mut Option<(i32, i32, usize)>,
)
    requires
        font.row_u32s_view() <= 32,
        font.height_view() <= 255,
        glyph.len() >= font.row_u32s_view() * font.height_view(),
        -0x2000_0000 <= pixel_x < 0x2000_0000,
        -0x2000_0000 <= pixel_y < 0x2000_0000,
        unique_tiles(old(staged)@),
        tiles_near(old(staged)@),
        cache_ok(old(staged)@, *old(left_cache)),
        cache_ok(old(staged)@, *old(right_cache)),
    ensures
        unique_tiles(final(staged)@),
        tiles_near(final(staged)@),
        cache_ok(final(staged)@, *final(left_cache)),
        cache_ok(final(staged)@, *final(right_cache)),
        forall|x: int, y: int|
            #[trigger] screen_px(final(staged)@, x, y) == drawn_px(
                old(staged)@,
                glyph@,
                font.row_u32s_view() as int,
                font.height_view() as int,
                pixel_x as int,
                pixel_y as int,
                x,
                y,
            ),
{
    let row_u32s = font.row_u32s();
    let height = font.glyph_height();
    let ghost before = staged@;
    let ghost ru = row_u32s as int;
    let ghost h = height as int;
    let mut chunk: usize = 0;
    while chunk < row_u32s
        invariant
            0 <= chunk <= row_u32s,
            row_u32s <= 32,
            height <= 255,
            ru == row_u32s,
            h == height,
            glyph.len() >= row_u32s * height,
            -0x2000_0000 <= pixel_x < 0x2000_0000,
            -0x2000_0000 <= pixel_y < 0x2000_0000,
            unique_tiles(staged@),
            tiles_near(staged@),
            cache_ok(staged@, *left_cache),
            cache_ok(staged@, *right_cache),
            forall|x: int, y: int|
                #[trigger] screen_px(staged@, x, y) == partial_px(before, glyph@, ru, h, pixel_x as int, pixel_y as int, chunk as int, 0, x, y),
        decreases row_u32s - chunk,
    {
        let px_left = pixel_x + (chunk as i32) * 8;
        proof {
            lemma_tile_coord(px_left);
        }
        let tile_x = px_left >> 3;
        let x_shift = (px_left & 7) as u32;
        let mut last_tile_y: Option<i32> = None;
        let mut left_idx: usize = 0;
        let mut right_idx: usize = 0;
        let mut row: u32 = 0;
        while row < height
            invariant
                0 <= row <= height,
                chunk < row_u32s,
                row_u32s <= 32,
                height <= 255,
                ru == row_u32s,
                h == height,
                glyph.len() >= row_u32s * height,
                -0x2000_0000 <= pixel_y < 0x2000_0000,
                px_left == pixel_x + chunk * 8,
                tile_x == px_left / 8,
                x_shift == px_left % 8,
                -0x0800_0000 <= tile_x < 0x0800_0000 - 1,
                unique_tiles(staged@),
                tiles_near(staged@),
                cache_ok(staged@, *left_cache),
                cache_ok(staged@, *right_cache),
                last_tile_y matches Some(lty) ==> {
                    &&& tile_is_at(staged@, left_idx as int, tile_x as int, lty as int)
                    &&& x_shift > 0 ==> tile_is_at(staged@, right_idx as int, tile_x + 1, lty as int)
                    &&& lty == (pixel_y + row - 1) / 8
                },
                last_tile_y is None ==> row == 0,
                forall|x: int, y: int|
                    #[trigger] screen_px(staged@, x, y) == partial_px(before, glyph@, ru, h, pixel_x as int, pixel_y as int, chunk as int, row as int, x, y),
            decreases height - row,
        {
            let abs_y = pixel_y + row as i32;
            proof {
                lemma_tile_coord(abs_y);
            }
            let current_tile_y = abs_y >> 3;
            let row_in_tile = (abs_y & 7) as usize;
            let need = match last_tile_y {
                Some(lty) => lty != current_tile_y,
                None => true,
            };
            if need {
                left_idx = stage_tile(staged, tile_x, current_tile_y, left_cache, *right_cache);
                if x_shift > 0 {
                    right_idx = stage_tile(staged, tile_x + 1, current_tile_y, right_cache, *left_cache);
                }
                last_tile_y = Some(current_tile_y);
            }
            proof {
                assert((row as int) * (row_u32s as int) + (chunk as int) < (row_u32s as int) * (height as int)) by (nonlinear_arith)
                    requires
                        row < height,
                        chunk < row_u32s,
                ;
                if x_shift > 0 {
                    assert(right_idx != left_idx);
                }
            }
            let pixel_data = glyph[row as usize * row_u32s + chunk];
            let ghost s0 = staged@;
            blit_row_pair(staged, left_idx, right_idx, x_shift, row_in_tile, pixel_data);
            proof {
                assert forall|i: int| 0 <= i < staged@.len() implies #[trigger] staged@[i].0 == s0[i].0 && staged@[i].1
                    == s0[i].1 by {}
                if let Some((cx, cy, ci)) = *left_cache {
                    assert(tile_is_at(s0, ci as int, cx as int, cy as int));
                    assert(staged@[ci as int].0 == s0[ci as int].0);
                }
                if let Some((cx, cy, ci)) = *right_cache {
                    assert(tile_is_at(s0, ci as int, cx as int, cy as int));
                    assert(staged@[ci as int].0 == s0[ci as int].0);
                }
                assert(staged@[left_idx as int].0 == s0[left_idx as int].0);
                if x_shift > 0 {
                    assert(staged@[right_idx as int].0 == s0[right_idx as int].0);
                }
                assert forall|i: int| 0 <= i < staged@.len() implies -0x0800_0000 <= #[trigger] staged@[i].0 < 0x0800_0000
                    && -0x0800_0000 <= staged@[i].1 < 0x0800_0000 by {
                    assert(staged@[i].0 == s0[i].0);
                }
                lemma_blit_row_step(
                    before,
                    s0,
                    staged@,
                    glyph@,
                    ru,
                    h,
                    pixel_x as int,
                    pixel_y as int,
                    chunk as int,
                    row as int,
                    left_idx as int,
                    right_idx as int,
                    tile_x as int,
                    current_tile_y as int,
                    row_in_tile as int,
                    x_shift,
                    pixel_data,
                );
            }
            row = row + 1;
        }
        proof {
            assert forall|x: int, y: int| #[trigger] screen_px(staged@, x, y) == partial_px(
                before,
                glyph@,
                ru,
                h,
                pixel_x as int,
                pixel_y as int,
                chunk + 1,
                0,
                x,
                y,
            ) by {
                assert(screen_px(staged@, x, y) == partial_px(before, glyph@, ru, h, pixel_x as int, pixel_y as int, chunk as int, height as int, x, y));
            }
        }
        chunk = chunk + 1;
    }
    proof {
        assert forall|x: int, y: int| #[trigger] screen_px(staged@, x, y) == drawn_px(
            before,
            glyph@,
            ru,
            h,
            pixel_x as int,
            pixel_y as int,
            x,
            y,
        ) by {
            assert(screen_px(staged@, x, y) == partial_px(before, glyph@, ru, h, pixel_x as int, pixel_y as int, row_u32s as int, 0, x, y));
        }
    }
}

} // verus!

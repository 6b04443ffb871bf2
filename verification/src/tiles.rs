use vstd::prelude::*;
use crate::pixels::{lemma_zero_word, nib};
use crate::renderer::blank_rows;

verus! {

/// An 8x8 tile of 4bpp pixels at tile column `.0`, tile row `.1`, shown
/// with palette `.3`: each of the 8 rows `.2` packs 8 pixels, pixel 0 in the
/// lowest nibble.
pub type TileRows = (i32, i32, [u32; 8], u8);

/// `after` holds the tiles of `before` at their places with their palettes,
/// then possibly more tiles, each shown with palette `pal`.
pub open spec fn tiles_placed(before: Seq<TileRows>, after: Seq<TileRows>, pal: u8) -> bool {
    &&& after.len() >= before.len()
    &&& forall|i: int|
        #![trigger after[i]]
        0 <= i < before.len() ==> after[i].0 == before[i].0 && after[i].1 == before[i].1 && after[i].3 == before[i].3
    &&& forall|i: int| #![trigger after[i]] before.len() <= i < after.len() ==> after[i].3 == pal
}

/// `after` holds exactly the tiles of `before`, at their places with their
/// palettes.
pub open spec fn tiles_kept(before: Seq<TileRows>, after: Seq<TileRows>) -> bool {
    &&& after.len() == before.len()
    &&& forall|i: int|
        #![trigger after[i]]
        0 <= i < before.len() ==> after[i].0 == before[i].0 && after[i].1 == before[i].1 && after[i].3 == before[i].3
}

/// Some tile sits at tile column `tx`, tile row `ty`.
pub open spec fn tracks(tiles: Seq<TileRows>, tx: int, ty: int) -> bool {
    exists|i: int| #[trigger] tile_is_at(tiles, i, tx, ty)
}

/// Some pixel of the tile at column `tx`, row `ty` is inked on the screen
/// that `tiles` show.
pub open spec fn screen_inks_tile(tiles: Seq<TileRows>, tx: int, ty: int) -> bool {
    exists|x: int, y: int| x / 8 == tx && y / 8 == ty && #[trigger] screen_px(tiles, x, y) != 0
}

/// Some tile among the first `j` of `staged` sits at `(tx, ty)` and has ink.
pub open spec fn staged_ink_before(staged: Seq<TileRows>, j: int, tx: int, ty: int) -> bool {
    exists|i: int| 0 <= i < j && #[trigger] tile_is_at(staged, i, tx, ty) && !blank_rows(staged[i].2)
}

/// A staged tile has ink exactly when some pixel of the screen it shows
/// there has.
pub proof fn lemma_staged_ink(staged: Seq<TileRows>, tx: int, ty: int)
    requires
        unique_tiles(staged),
    ensures
        staged_ink_before(staged, staged.len() as int, tx, ty) <==> screen_inks_tile(staged, tx, ty),
{
    if staged_ink_before(staged, staged.len() as int, tx, ty) {
        let i = choose|i: int| 0 <= i < staged.len() && #[trigger] tile_is_at(staged, i, tx, ty) && !blank_rows(staged[i].2);
        let rows = staged[i].2;
        let k = choose|k: int| 0 <= k < 8 && #[trigger] rows@[k] != 0;
        lemma_zero_word(rows@[k]);
        let j = choose|j: u32| j < 8 && #[trigger] nib(rows@[k], j) != 0;
        let x = 8 * tx + j;
        let y = 8 * ty + k;
        assert(x / 8 == tx && x % 8 == j && y / 8 == ty && y % 8 == k);
        lemma_screen_px_at(staged, i, x, y);
        assert(screen_px(staged, x, y) != 0);
    }
    if screen_inks_tile(staged, tx, ty) {
        let (x, y) = choose|x: int, y: int| x / 8 == tx && y / 8 == ty && #[trigger] screen_px(staged, x, y) != 0;
        assert(exists|i: int| #[trigger] tile_is_at(staged, i, x / 8, y / 8));
        let i = choose|i: int| #[trigger] tile_is_at(staged, i, x / 8, y / 8);
        lemma_screen_px_at(staged, i, x, y);
        let rows = staged[i].2;
        if blank_rows(rows) {
            lemma_zero_word(rows@[y % 8]);
            assert(nib(rows@[y % 8], (x % 8) as u32) == 0);
            assert(false);
        }
    }
}

/// Placing tiles twice with one palette places them once.
pub proof fn lemma_tiles_placed_trans(a: Seq<TileRows>, b: Seq<TileRows>, c: Seq<TileRows>, pal: u8)
    requires
        tiles_placed(a, b, pal),
        tiles_placed(b, c, pal),
    ensures
        tiles_placed(a, c, pal),
{
    assert forall|i: int| #![trigger c[i]] a.len() <= i < c.len() implies c[i].3 == pal by {
        if i < b.len() {
            assert(b[i].3 == pal);
        }
    }
    assert forall|i: int| #![trigger c[i]] 0 <= i < a.len() implies c[i].0 == a[i].0 && c[i].1 == a[i].1 && c[i].3
        == a[i].3 by {
        assert(b[i].0 == a[i].0);
    }
}

/// Keeping the tiles twice keeps them.
pub proof fn lemma_tiles_kept_trans(a: Seq<TileRows>, b: Seq<TileRows>, c: Seq<TileRows>)
    requires
        tiles_kept(a, b),
        tiles_kept(b, c),
    ensures
        tiles_kept(a, c),
{
    assert forall|i: int| #![trigger c[i]] 0 <= i < a.len() implies c[i].0 == a[i].0 && c[i].1 == a[i].1 && c[i].3
        == a[i].3 by {
        assert(b[i].0 == a[i].0);
    }
}

/// Pixel `(x, y)` (0..8 each) of a tile.
pub open spec fn tile_px(rows: [u32; 8], x: int, y: int) -> u32 {
    nib(rows@[y], x as u32)
}

/// No two tiles share a position.
pub open spec fn unique_tiles(tiles: Seq<TileRows>) -> bool {
    forall|i: int, j: int|
        0 <= i < tiles.len() && 0 <= j < tiles.len() && i != j ==> (#[trigger] tiles[i].0, tiles[i].1) != (
        #[trigger] tiles[j].0, tiles[j].1)
}

/// Tile `i` sits at tile column `tx`, tile row `ty`.
pub open spec fn tile_is_at(tiles: Seq<TileRows>, i: int, tx: int, ty: int) -> bool {
    0 <= i < tiles.len() && tiles[i].0 == tx && tiles[i].1 == ty
}

/// Screen pixel `(x, y)` as the tiles show it: the pixel of the tile that
/// covers it, 0 (transparent) where no tile does.
pub open spec fn screen_px(tiles: Seq<TileRows>, x: int, y: int) -> u32 {
    if exists|i: int| #[trigger] tile_is_at(tiles, i, x / 8, y / 8) {
        let i = choose|i: int| #[trigger] tile_is_at(tiles, i, x / 8, y / 8);
        tile_px(tiles[i].2, x % 8, y % 8)
    } else {
        0
    }
}

/// With unique positions, the screen pixel is that of the tile at its
/// position.
pub proof fn lemma_screen_px_at(tiles: Seq<TileRows>, i: int, x: int, y: int)
    requires
        unique_tiles(tiles),
        tile_is_at(tiles, i, x / 8, y / 8),
    ensures
        screen_px(tiles, x, y) == tile_px(tiles[i].2, x % 8, y % 8),
{
    let j = choose|j: int| #[trigger] tile_is_at(tiles, j, x / 8, y / 8);
    if j != i {
        assert((tiles[i].0, tiles[i].1) != (tiles[j].0, tiles[j].1));
    }
}

/// An arithmetic shift right by 3 is floor division by 8 and the low 3 bits
/// are the (non-negative) remainder.
pub proof fn lemma_tile_coord(v: i32)
    ensures
        (v >> 3) as int == v as int / 8,
        (v & 7) as int == v as int % 8,
{
    assert((v >> 3) * 8 + (v & 7) == v && 0 <= (v & 7) < 8) by (bit_vector);
}

/// Shifting a packed row left by `s` pixels moves pixel `k - s` to `k` and
/// clears the first `s` pixels.
pub proof fn lemma_shl_pixels(w: u32, s: u32, k: u32)
    requires
        s < 8,
        k < 8,
    ensures
        nib(w << (4 * s), k) == if k >= s {
            nib(w, (k - s) as u32)
        } else {
            0
        },
{
    assert(((w << (4 * s)) >> (4 * k)) & 0xF == if k >= s {
        (w >> (4 * ((k - s) as u32))) & 0xF
    } else {
        0
    }) by (bit_vector)
        requires
            s < 8,
            k < 8,
    ;
}

/// Shifting a packed row right by `8 - s` pixels (`0 < s < 8`) moves its
/// last `s` pixels to the front and clears the rest.
pub proof fn lemma_shr_pixels(w: u32, s: u32, k: u32)
    requires
        0 < s < 8,
        k < 8,
    ensures
        nib(w >> ((32 - 4 * s) as u32), k) == if k < s {
            nib(w, (k + 8 - s) as u32)
        } else {
            0
        },
{
    assert(((w >> ((32 - 4 * s) as u32)) >> (4 * k)) & 0xF == if k < s {
        (w >> (4 * ((k + 8 - s) as u32))) & 0xF
    } else {
        0
    }) by (bit_vector)
        requires
            0 < s < 8,
            k < 8,
    ;
}

/// Replacing the rows of tile `i` changes the screen only inside that tile.
pub proof fn lemma_screen_update(tiles: Seq<TileRows>, i: int, rows: [u32; 8], x: int, y: int)
    requires
        unique_tiles(tiles),
        0 <= i < tiles.len(),
    ensures
        unique_tiles(tiles.update(i, (tiles[i].0, tiles[i].1, rows, tiles[i].3))),
        screen_px(tiles.update(i, (tiles[i].0, tiles[i].1, rows, tiles[i].3)), x, y) == if tiles[i].0 == x / 8 && tiles[i].1 == y
            / 8 {
            tile_px(rows, x % 8, y % 8)
        } else {
            screen_px(tiles, x, y)
        },
{
    let t2 = tiles.update(i, (tiles[i].0, tiles[i].1, rows, tiles[i].3));
    assert forall|a: int, b: int|
        0 <= a < t2.len() && 0 <= b < t2.len() && a != b implies (#[trigger] t2[a].0, t2[a].1) != (#[trigger] t2[b].0, t2[b].1) by {
        assert((tiles[a].0, tiles[a].1) != (tiles[b].0, tiles[b].1));
    }
    if tiles[i].0 == x / 8 && tiles[i].1 == y / 8 {
        assert(tile_is_at(t2, i, x / 8, y / 8));
        lemma_screen_px_at(t2, i, x, y);
    } else {
        if exists|j: int| #[trigger] tile_is_at(tiles, j, x / 8, y / 8) {
            let j = choose|j: int| #[trigger] tile_is_at(tiles, j, x / 8, y / 8);
            assert(tile_is_at(t2, j, x / 8, y / 8));
            lemma_screen_px_at(tiles, j, x, y);
            lemma_screen_px_at(t2, j, x, y);
        } else {
            if exists|j: int| #[trigger] tile_is_at(t2, j, x / 8, y / 8) {
                let j = choose|j: int| #[trigger] tile_is_at(t2, j, x / 8, y / 8);
                assert(tile_is_at(tiles, j, x / 8, y / 8));
            }
        }
    }
}

/// Adding a blank tile where there was none leaves the screen as it was.
pub proof fn lemma_screen_push_blank(tiles: Seq<TileRows>, tile: TileRows, x: int, y: int)
    requires
        unique_tiles(tiles),
        !(exists|i: int| #[trigger] tile_is_at(tiles, i, tile.0 as int, tile.1 as int)),
        forall|k: int| 0 <= k < 8 ==> #[trigger] tile.2@[k] == 0,
    ensures
        unique_tiles(tiles.push(tile)),
        screen_px(tiles.push(tile), x, y) == screen_px(tiles, x, y),
{
    let t2 = tiles.push(tile);
    let n = tiles.len() as int;
    assert forall|a: int, b: int|
        0 <= a < t2.len() && 0 <= b < t2.len() && a != b implies (#[trigger] t2[a].0, t2[a].1) != (#[trigger] t2[b].0, t2[b].1) by {
        if a < n && b < n {
            assert((tiles[a].0, tiles[a].1) != (tiles[b].0, tiles[b].1));
        } else if a < n {
            assert(!tile_is_at(tiles, a, tile.0 as int, tile.1 as int));
        } else {
            assert(!tile_is_at(tiles, b, tile.0 as int, tile.1 as int));
        }
    }
    if tile.0 == x / 8 && tile.1 == y / 8 {
        assert(tile_is_at(t2, n, x / 8, y / 8));
        lemma_screen_px_at(t2, n, x, y);
        assert(nib(0u32, (x % 8) as u32) == 0) by {
            assert(nib(0u32, (x % 8) as u32) == (0u32 >> (4 * ((x % 8) as u32))) & 0xF);
            crate::pixels::lemma_zero_word(0u32);
        }
        assert(tile_px(tile.2, x % 8, y % 8) == 0);
        if exists|j: int| #[trigger] tile_is_at(tiles, j, x / 8, y / 8) {
            let j = choose|j: int| #[trigger] tile_is_at(tiles, j, x / 8, y / 8);
            assert(tile_is_at(tiles, j, tile.0 as int, tile.1 as int));
        }
    } else {
        if exists|j: int| #[trigger] tile_is_at(tiles, j, x / 8, y / 8) {
            let j = choose|j: int| #[trigger] tile_is_at(tiles, j, x / 8, y / 8);
            assert(tile_is_at(t2, j, x / 8, y / 8));
            lemma_screen_px_at(tiles, j, x, y);
            lemma_screen_px_at(t2, j, x, y);
        } else {
            if exists|j: int| #[trigger] tile_is_at(t2, j, x / 8, y / 8) {
                let j = choose|j: int| #[trigger] tile_is_at(t2, j, x / 8, y / 8);
                if j < n {
                    assert(tile_is_at(tiles, j, x / 8, y / 8));
                }
            }
        }
    }
}

} // verus!

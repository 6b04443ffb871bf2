use vstd::prelude::*;
use crate::font::AgbFont;
use crate::layout::{drawable, glyph_data, lemma_glyph_in_data};
use crate::pixels::{blit_pixel_row_arm, nib};
use crate::renderer::glyph_px;
use crate::tiles::{lemma_shl_pixels, lemma_shr_pixels};

verus! {

/// Height of the sprites that hold glyphs `glyph_h` pixels tall: the
/// smallest of 8, 16, 32 and 64 that fits, 64 above that.
pub open spec fn sprite_height_spec(glyph_h: u32) -> u32 {
    if glyph_h <= 8 {
        8
    } else if glyph_h <= 16 {
        16
    } else if glyph_h <= 32 {
        32
    } else {
        64
    }
}

/// Height of the sprites that hold glyphs `glyph_h` pixels tall
pub fn sprite_height_for(glyph_h: u32) -> (r: u32)
    ensures
        r == sprite_height_spec(glyph_h),
{
    if glyph_h <= 8 {
        8
    } else if glyph_h <= 16 {
        16
    } else if glyph_h <= 32 {
        32
    } else {
        64
    }
}

/// Sprite widths the GBA has for a sprite height, narrowest first.
pub open spec fn valid_widths_spec(sprite_h: u32) -> Seq<u32> {
    if sprite_h == 8 || sprite_h == 16 {
        seq![8u32, 16, 32]
    } else if sprite_h == 32 {
        seq![8u32, 16, 32, 64]
    } else {
        seq![32u32, 64]
    }
}

/// Sprite widths the GBA has for a sprite height, narrowest first
pub fn valid_widths_for_height(sprite_h: u32) -> (r: &'static [u32])
    ensures
        r@ == valid_widths_spec(sprite_h),
{
    if sprite_h == 8 || sprite_h == 16 {
        let r: &'static [u32] = &[8u32, 16, 32];
        assert(r@ =~= seq![8u32, 16, 32]);
        r
    } else if sprite_h == 32 {
        let r: &'static [u32] = &[8u32, 16, 32, 64];
        assert(r@ =~= seq![8u32, 16, 32, 64]);
        r
    } else {
        let r: &'static [u32] = &[32u32, 64];
        assert(r@ =~= seq![32u32, 64]);
        r
    }
}

/// The first of the widths that holds `content_px` pixels, the last one
/// when none does.
pub open spec fn pick_min_width_spec(content_px: u32, valid: Seq<u32>) -> u32
    decreases valid.len(),
{
    if valid.len() <= 1 {
        valid.last()
    } else if valid[0] >= content_px {
        valid[0]
    } else {
        pick_min_width_spec(content_px, valid.drop_first())
    }
}

/// The narrowest of `valid` (sorted ascending) that holds `content_px`
/// pixels, or the widest when none does
pub fn pick_min_width(content_px: u32, valid: &[u32]) -> (r: u32)
    requires
        valid.len() > 0,
    ensures
        r == pick_min_width_spec(content_px, valid@),
        valid@.contains(r),
{
    let mut i: usize = 0;
    assert(valid@.skip(0) =~= valid@);
    while i + 1 < valid.len() && valid[i] < content_px
        invariant
            0 <= i < valid.len(),
            pick_min_width_spec(content_px, valid@) == pick_min_width_spec(content_px, valid@.skip(i as int)),
        decreases valid.len() - i,
    {
        assert(valid@.skip(i as int).drop_first() =~= valid@.skip(i + 1));
        i = i + 1;
    }
    assert(valid@.skip(i as int)[0] == valid@[i as int]);
    if i + 1 >= valid.len() {
        assert(valid@.skip(i as int).len() == 1);
        assert(valid@.skip(i as int).last() == valid@[i as int]);
    }
    assert(valid@.contains(valid@[i as int]));
    valid[i]
}

/// Pixel `(x, y)` of 4bpp sprite data laid out as 8x8 tiles, row-major,
/// `w_tiles` tiles per row of tiles: each tile is 32 bytes, 4 bytes per
/// pixel row, the even pixel in the low nibble of its byte.
pub open spec fn sprite_px(data: Seq<u8>, w_tiles: int, x: int, y: int) -> u32 {
    let b = data[((y / 8) * w_tiles + x / 8) * 32 + (y % 8) * 4 + (x % 8) / 2];
    if x % 2 == 0 {
        (b & 0xF) as u32
    } else {
        (b >> 4) as u32
    }
}

/// Packs 4 bytes little-endian.
pub open spec fn word_of(b0: u8, b1: u8, b2: u8, b3: u8) -> u32 {
    (b0 as u32) | ((b1 as u32) << 8) | ((b2 as u32) << 16) | ((b3 as u32) << 24)
}

/// Pixel `k` of a row word packed from 4 bytes is the nibble of byte `k / 2`.
proof fn lemma_word_nibbles(b0: u8, b1: u8, b2: u8, b3: u8, k: u32)
    requires
        k < 8,
    ensures
        nib(word_of(b0, b1, b2, b3), k) == ({
            let b = if k / 2 == 0 {
                b0
            } else if k / 2 == 1 {
                b1
            } else if k / 2 == 2 {
                b2
            } else {
                b3
            };
            if k % 2 == 0 {
                (b & 0xF) as u32
            } else {
                (b >> 4) as u32
            }
        }),
{
    let w = word_of(b0, b1, b2, b3);
    assert(((w >> (4 * k)) & 0xF) == ({
        let b = if k / 2 == 0 {
            b0
        } else if k / 2 == 1 {
            b1
        } else if k / 2 == 2 {
            b2
        } else {
            b3
        };
        if k % 2 == 0 {
            (b & 0xF) as u32
        } else {
            (b >> 4) as u32
        }
    })) by (bit_vector)
        requires
            k < 8,
            w == (b0 as u32) | ((b1 as u32) << 8) | ((b2 as u32) << 16) | ((b3 as u32) << 24),
    ;
}

/// The 4 little-endian bytes of a word pack back into it.
proof fn lemma_word_bytes(w: u32)
    ensures
        word_of((w & 0xff) as u8, ((w >> 8) & 0xff) as u8, ((w >> 16) & 0xff) as u8, ((w >> 24) & 0xff) as u8) == w,
{
    assert(((((w & 0xff) as u8) as u32) | (((((w >> 8) & 0xff) as u8) as u32) << 8) | (((((w >> 16) & 0xff) as u8) as u32)
        << 16) | (((((w >> 24) & 0xff) as u8) as u32) << 24)) == w) by (bit_vector);
}

/// Nibble `k` (0..8) of the 4 bytes from `base`, as a row word stores it.
pub open spec fn byte_nib(data: Seq<u8>, base: int, k: int) -> u32 {
    let b = data[base + k / 2];
    if k % 2 == 0 {
        (b & 0xF) as u32
    } else {
        (b >> 4) as u32
    }
}

/// Blits a packed row into the 4 bytes from `base`: inked pixels of `src`
/// replace the pixels there.
fn blit_word_at(data: &mut Vec<u8>, base: usize, src: u32)
    requires
        base + 4 <= old(data).len(),
    ensures
        final(data)@.len() == old(data)@.len(),
        forall|i: int| 0 <= i < old(data)@.len() && !(base <= i < base + 4) ==> #[trigger] final(data)@[i] == old(data)@[i],
        forall|k: int|
            0 <= k < 8 ==> #[trigger] byte_nib(final(data)@, base as int, k) == if nib(src, k as u32) != 0 {
                nib(src, k as u32)
            } else {
                byte_nib(old(data)@, base as int, k)
            },
{
    let b0 = data[base];
    let b1 = data[base + 1];
    let b2 = data[base + 2];
    let b3 = data[base + 3];
    let mut w: u32 = (b0 as u32) | ((b1 as u32) << 8) | ((b2 as u32) << 16) | ((b3 as u32) << 24);
    let w0 = w;
    blit_pixel_row_arm(&mut w, src);
    data.set(base, (w & 0xff) as u8);
    data.set(base + 1, ((w >> 8) & 0xff) as u8);
    data.set(base + 2, ((w >> 16) & 0xff) as u8);
    data.set(base + 3, ((w >> 24) & 0xff) as u8);
    proof {
        lemma_word_bytes(w);
        assert forall|k: int| 0 <= k < 8 implies #[trigger] byte_nib(data@, base as int, k) == if nib(src, k as u32) != 0 {
            nib(src, k as u32)
        } else {
            byte_nib(old(data)@, base as int, k)
        } by {
            lemma_word_nibbles(b0, b1, b2, b3, k as u32);
            lemma_word_nibbles(
                (w & 0xff) as u8,
                ((w >> 8) & 0xff) as u8,
                ((w >> 16) & 0xff) as u8,
                ((w >> 24) & 0xff) as u8,
                k as u32,
            );
            assert(nib(w, k as u32) == if nib(src, k as u32) != 0 {
                nib(src, k as u32)
            } else {
                nib(w0, k as u32)
            });
        }
    }
}

/// Sprite pixel `(x, y)` part way through blitting a glyph at `sprite_x`:
/// rows before `row`, and words before `chunk` of row `row`, are drawn.
pub open spec fn sprite_partial_px(
    before: Seq<u8>,
    w_tiles: int,
    glyph: Seq<u32>,
    ru: int,
    h: int,
    sprite_x: int,
    row: int,
    chunk: int,
    x: int,
    y: int,
) -> u32 {
    let gx = x - sprite_x;
    let g = glyph_px(glyph, ru, h, gx, y);
    if 0 <= gx && (y < row || (y == row && gx / 8 < chunk)) && g != 0 {
        g
    } else {
        sprite_px(before, w_tiles, x, y)
    }
}

/// Byte offset of the row word of pixel `(x, y)`.
pub open spec fn word_base(w_tiles: int, x: int, y: int) -> int {
    ((y / 8) * w_tiles + x / 8) * 32 + (y % 8) * 4
}

/// Pixels of distinct positions live in distinct bytes, and a pixel's word
/// holds only pixels of the same tile row.
proof fn lemma_word_base_unique(w_tiles: int, x1: int, y1: int, x2: int, y2: int)
    requires
        0 <= x1 < 8 * w_tiles,
        0 <= x2 < 8 * w_tiles,
        0 <= y1,
        0 <= y2,
        word_base(w_tiles, x1, y1) == word_base(w_tiles, x2, y2),
    ensures
        y1 == y2,
        x1 / 8 == x2 / 8,
{
    let a = (y1 / 8) * w_tiles + x1 / 8;
    let b = (y2 / 8) * w_tiles + x2 / 8;
    assert(a == b && y1 % 8 == y2 % 8) by (nonlinear_arith)
        requires
            a * 32 + (y1 % 8) * 4 == b * 32 + (y2 % 8) * 4,
            0 <= y1 % 8 < 8,
            0 <= y2 % 8 < 8,
    ;
    assert(y1 / 8 == y2 / 8 && x1 / 8 == x2 / 8) by (nonlinear_arith)
        requires
            (y1 / 8) * w_tiles + x1 / 8 == (y2 / 8) * w_tiles + x2 / 8,
            0 <= x1 / 8 < w_tiles,
            0 <= x2 / 8 < w_tiles,
    ;
}

/// Changing the 4 bytes of one row word changes only the 8 pixels it holds.
proof fn lemma_word_update(d0: Seq<u8>, d1: Seq<u8>, w_tiles: int, tx: int, row: int, x: int, y: int)
    requires
        0 <= tx < w_tiles,
        0 <= row,
        0 <= x < 8 * w_tiles,
        0 <= y,
        word_base(w_tiles, x, y) + 4 <= d0.len(),
        d1.len() == d0.len(),
        forall|i: int|
            0 <= i < d0.len() && !(word_base(w_tiles, 8 * tx, row) <= i < word_base(w_tiles, 8 * tx, row) + 4)
                ==> #[trigger] d1[i] == d0[i],
    ensures
        !(y == row && x / 8 == tx) ==> sprite_px(d1, w_tiles, x, y) == sprite_px(d0, w_tiles, x, y),
        y == row && x / 8 == tx ==> sprite_px(d1, w_tiles, x, y) == byte_nib(d1, word_base(w_tiles, 8 * tx, row), x % 8),
{
    let wb = word_base(w_tiles, x, y);
    let b = word_base(w_tiles, 8 * tx, row);
    if y == row && x / 8 == tx {
        assert(wb == b);
    } else {
        if wb == b {
            lemma_word_base_unique(w_tiles, x, y, 8 * tx, row);
        }
        assert(wb % 4 == 0 && b % 4 == 0) by (nonlinear_arith)
            requires
                wb == ((y / 8) * w_tiles + x / 8) * 32 + (y % 8) * 4,
                b == ((row / 8) * w_tiles + (8 * tx) / 8) * 32 + (row % 8) * 4,
        ;
        let i = wb + (x % 8) / 2;
        assert(!(b <= i < b + 4));
        assert(d1[i] == d0[i]);
    }
}

/// One word of a glyph row blitted into the sprite: the left word takes the
/// row shifted right by `s` pixels, the right word (when written) the pixels
/// that spill over.
proof fn lemma_sprite_chunk_step(
    before: Seq<u8>,
    d0: Seq<u8>,
    d1: Seq<u8>,
    d2: Seq<u8>,
    w: int,
    glyph: Seq<u32>,
    ru: int,
    h: int,
    sx: int,
    row: int,
    chunk: int,
    tx_left: int,
    s: u32,
    pd: u32,
    right: bool,
)
    requires
        1 <= w,
        0 <= row < h,
        0 <= chunk < ru,
        0 <= sx,
        0 <= tx_left < w,
        s < 8,
        8 * tx_left + s == sx + 8 * chunk,
        right == (s > 0 && tx_left + 1 < w),
        pd == glyph[row * ru + chunk],
        d0.len() == before.len(),
        d1.len() == before.len(),
        d2.len() == before.len(),
        forall|x: int, y: int|
            0 <= x < 8 * w && 0 <= y && word_base(w, x, y) + 4 <= before.len() ==> #[trigger] sprite_px(d0, w, x, y)
                == sprite_partial_px(before, w, glyph, ru, h, sx, row, chunk, x, y),
        forall|i: int|
            0 <= i < d0.len() && !(word_base(w, 8 * tx_left, row) <= i < word_base(w, 8 * tx_left, row) + 4) ==> #[trigger] d1[i]
                == d0[i],
        forall|k: int|
            0 <= k < 8 ==> #[trigger] byte_nib(d1, word_base(w, 8 * tx_left, row), k) == if nib(pd << (s * 4), k as u32) != 0 {
                nib(pd << (s * 4), k as u32)
            } else {
                byte_nib(d0, word_base(w, 8 * tx_left, row), k)
            },
        !right ==> d2 == d1,
        right ==> forall|i: int|
            0 <= i < d1.len() && !(word_base(w, 8 * (tx_left + 1), row) <= i < word_base(w, 8 * (tx_left + 1), row) + 4)
                ==> #[trigger] d2[i] == d1[i],
        right ==> forall|k: int|
            0 <= k < 8 ==> #[trigger] byte_nib(d2, word_base(w, 8 * (tx_left + 1), row), k) == if nib(
                pd >> ((32 - s * 4) as u32),
                k as u32,
            ) != 0 {
                nib(pd >> ((32 - s * 4) as u32), k as u32)
            } else {
                byte_nib(d1, word_base(w, 8 * (tx_left + 1), row), k)
            },
    ensures
        forall|x: int, y: int|
            0 <= x < 8 * w && 0 <= y && word_base(w, x, y) + 4 <= before.len() ==> #[trigger] sprite_px(d2, w, x, y)
                == sprite_partial_px(before, w, glyph, ru, h, sx, row, chunk + 1, x, y),
{
    assert forall|x: int, y: int|
        0 <= x < 8 * w && 0 <= y && word_base(w, x, y) + 4 <= before.len() implies #[trigger] sprite_px(d2, w, x, y)
            == sprite_partial_px(before, w, glyph, ru, h, sx, row, chunk + 1, x, y) by {
        assert(sprite_px(d0, w, x, y) == sprite_partial_px(before, w, glyph, ru, h, sx, row, chunk, x, y));
        let gx = x - sx;
        let k = x % 8;
        lemma_word_update(d0, d1, w, tx_left, row, x, y);
        if right {
            lemma_word_update(d1, d2, w, tx_left + 1, row, x, y);
        }
        if y == row && x / 8 == tx_left {
            lemma_shl_pixels(pd, s, k as u32);
            assert(4 * s == s * 4);
            if k >= s {
                assert(gx == 8 * chunk + (k - s));
                assert(gx / 8 == chunk);
                assert(gx % 8 == k - s);
            } else {
                assert(gx < 8 * chunk);
            }
        } else if y == row && x / 8 == tx_left + 1 {
            if right {
                lemma_shr_pixels(pd, s, k as u32);
                assert(4 * s == s * 4);
                assert(gx == 8 * chunk + 8 - s + k);
                if k < s {
                    assert(gx / 8 == chunk);
                    assert(gx % 8 == k + 8 - s);
                } else {
                    assert(gx / 8 == chunk + 1);
                }
            } else if s == 0 {
                assert(gx / 8 == chunk + 1);
            } else {
                assert(x >= 8 * w);
            }
        } else if y == row {
            assert(gx / 8 != chunk);
        }
    }
}

/// Blits one glyph into 4bpp sprite data `sprite_w_tiles` tiles wide at
/// horizontal pixel offset `sprite_x`: inked glyph pixels replace the sprite
/// pixels under them; ink past the sprite's width is dropped
pub fn blit_glyph_to_sprite<T: AgbFont>(data: &mut Vec<u8>, sprite_w_tiles: usize, glyph: &[u32], font: &T, sprite_x: usize)
    requires
        font.row_u32s_view() <= 32,
        font.height_view() <= 64,
        glyph.len() >= font.row_u32s_view() * font.height_view(),
        1 <= sprite_w_tiles <= 8,
        sprite_x <= 0x1000_0000,
        old(data).len() >= 32 * sprite_w_tiles * ((font.height_view() + 7) / 8),
    ensures
        final(data)@.len() == old(data)@.len(),
        forall|x: int, y: int|
            0 <= x < 8 * sprite_w_tiles && 0 <= y && word_base(sprite_w_tiles as int, x, y) + 4 <= old(data)@.len()
                ==> #[trigger] sprite_px(final(data)@, sprite_w_tiles as int, x, y) == ({
                let g = glyph_px(glyph@, font.row_u32s_view() as int, font.height_view() as int, x - sprite_x, y);
                if g != 0 {
                    g
                } else {
                    sprite_px(old(data)@, sprite_w_tiles as int, x, y)
                }
            }),
{
    let height = font.glyph_height() as usize;
    let row_u32s = font.row_u32s();
    let ghost before = data@;
    let ghost w = sprite_w_tiles as int;
    let ghost ru = row_u32s as int;
    let ghost h = height as int;
    let mut row: usize = 0;
    while row < height
        invariant
            0 <= row <= height,
            height <= 64,
            row_u32s <= 32,
            h == height,
            ru == row_u32s,
            w == sprite_w_tiles,
            1 <= sprite_w_tiles <= 8,
            sprite_x <= 0x1000_0000,
            glyph.len() >= row_u32s * height,
            data@.len() == before.len(),
            before.len() >= 32 * sprite_w_tiles * ((height + 7) / 8),
            forall|x: int, y: int|
                0 <= x < 8 * w && 0 <= y && word_base(w, x, y) + 4 <= before.len() ==> #[trigger] sprite_px(data@, w, x, y)
                    == sprite_partial_px(before, w, glyph@, ru, h, sprite_x as int, row as int, 0, x, y),
        decreases height - row,
    {
        let ty = row / 8;
        let row_in_tile = row % 8;
        assert(ty * sprite_w_tiles <= 64) by (nonlinear_arith)
            requires
                ty < 8,
                sprite_w_tiles <= 8,
        ;
        let mut chunk: usize = 0;
        while chunk < row_u32s
            invariant
                0 <= chunk <= row_u32s,
                row < height,
                height <= 64,
                row_u32s <= 32,
                h == height,
                ru == row_u32s,
                w == sprite_w_tiles,
                ty == row / 8,
                row_in_tile == row % 8,
                ty * sprite_w_tiles <= 64,
                1 <= sprite_w_tiles <= 8,
                sprite_x <= 0x1000_0000,
                glyph.len() >= row_u32s * height,
                data@.len() == before.len(),
                before.len() >= 32 * sprite_w_tiles * ((height + 7) / 8),
                forall|x: int, y: int|
                    0 <= x < 8 * w && 0 <= y && word_base(w, x, y) + 4 <= before.len() ==> #[trigger] sprite_px(data@, w, x, y)
                        == sprite_partial_px(before, w, glyph@, ru, h, sprite_x as int, row as int, chunk as int, x, y),
            decreases row_u32s - chunk,
        {
            proof {
                assert(row * row_u32s + chunk < row_u32s * height) by (nonlinear_arith)
                    requires
                        row < height,
                        chunk < row_u32s,
                ;
            }
            let pixel_data = glyph[row * row_u32s + chunk];
            let cx = sprite_x + chunk * 8;
            let tx_left = cx / 8;
            let shift = (cx % 8) as u32;
            let ghost d0 = data@;
            if pixel_data != 0 && tx_left < sprite_w_tiles {
                proof {
                    assert(ty < (height + 7) / 8);
                    assert((ty * sprite_w_tiles + tx_left) * 32 + row_in_tile * 4 + 4 <= 32 * sprite_w_tiles * ((height + 7) / 8)) by (nonlinear_arith)
                        requires
                            ty < (height + 7) / 8,
                            tx_left < sprite_w_tiles,
                            row_in_tile < 8,
                    ;
                }
                let base = (ty * sprite_w_tiles + tx_left) * 32 + row_in_tile * 4;
                blit_word_at(data, base, pixel_data << (shift * 4));
                let ghost d1 = data@;
                proof {
                    assert(base == word_base(w, 8 * tx_left, row as int));
                }
                if shift > 0 && tx_left + 1 < sprite_w_tiles {
                    let tx_right = tx_left + 1;
                    proof {
                        assert((ty * sprite_w_tiles + tx_right) * 32 + row_in_tile * 4 + 4 <= 32 * sprite_w_tiles * ((height + 7) / 8)) by (nonlinear_arith)
                            requires
                                ty < (height + 7) / 8,
                                tx_right < sprite_w_tiles,
                                row_in_tile < 8,
                        ;
                    }
                    let base_r = (ty * sprite_w_tiles + tx_right) * 32 + row_in_tile * 4;
                    blit_word_at(data, base_r, pixel_data >> (32 - shift * 4));
                    proof {
                        assert(base_r == word_base(w, 8 * tx_right, row as int));
                    }
                }
                proof {
                    lemma_sprite_chunk_step(
                        before,
                        d0,
                        d1,
                        data@,
                        w,
                        glyph@,
                        ru,
                        h,
                        sprite_x as int,
                        row as int,
                        chunk as int,
                        tx_left as int,
                        shift,
                        pixel_data,
                        shift > 0 && tx_left + 1 < sprite_w_tiles,
                    );
                }
            } else {
                proof {
                    assert forall|x: int, y: int|
                        0 <= x < 8 * w && 0 <= y && word_base(w, x, y) + 4 <= before.len() implies #[trigger] sprite_px(data@, w, x, y)
                            == sprite_partial_px(before, w, glyph@, ru, h, sprite_x as int, row as int, chunk + 1, x, y) by {
                        assert(sprite_px(d0, w, x, y) == sprite_partial_px(before, w, glyph@, ru, h, sprite_x as int, row as int, chunk as int, x, y));
                        let gx = x - sprite_x;
                        if y == row && 0 <= gx && gx / 8 == chunk {
                            if pixel_data == 0 {
                                crate::pixels::lemma_zero_word(pixel_data);
                                assert(glyph_px(glyph@, ru, h, gx, y) == nib(pixel_data, (gx % 8) as u32));
                            } else {
                                assert(x >= cx);
                                assert(x >= 8 * tx_left);
                            }
                        }
                    }
                }
            }
            chunk = chunk + 1;
        }
        proof {
            assert forall|x: int, y: int|
                0 <= x < 8 * w && 0 <= y && word_base(w, x, y) + 4 <= before.len() implies #[trigger] sprite_px(data@, w, x, y)
                    == sprite_partial_px(before, w, glyph@, ru, h, sprite_x as int, row + 1, 0, x, y) by {
                assert(sprite_px(data@, w, x, y) == sprite_partial_px(before, w, glyph@, ru, h, sprite_x as int, row as int, row_u32s as int, x, y));
                let gx = x - sprite_x;
                if y == row && 0 <= gx && gx / 8 >= row_u32s {
                    assert(glyph_px(glyph@, ru, h, gx, y) == 0);
                }
            }
        }
        row = row + 1;
    }
    proof {
        assert forall|x: int, y: int|
            0 <= x < 8 * w && 0 <= y && word_base(w, x, y) + 4 <= before.len() implies #[trigger] sprite_px(data@, w, x, y) == ({
                let g = glyph_px(glyph@, ru, h, x - sprite_x, y);
                if g != 0 {
                    g
                } else {
                    sprite_px(before, w, x, y)
                }
            }) by {
            assert(sprite_px(data@, w, x, y) == sprite_partial_px(before, w, glyph@, ru, h, sprite_x as int, height as int, 0, x, y));
        }
    }
}

/// One rendered sprite: its screen position, its size in pixels and its 4bpp
/// pixel data, 8x8 tiles row-major.
pub struct SpriteObject {
    pub pos: (i32, i32),
    pub width: u32,
    pub height: u32,
    pub data: Vec<u8>,
}

/// A run of glyphs packed into one sprite: the sprite's screen position,
/// the glyphs with their horizontal offsets inside it, and the width they
/// take.
pub type SpriteRun = (int, int, Seq<(u8, u32)>, int);

/// Pixel `(x, y)` of a sprite holding the glyphs at their offsets: a later
/// inked pixel covers an earlier one.
pub open spec fn run_px<T: AgbFont>(font: &T, chars: Seq<(u8, u32)>, x: int, y: int) -> u32
    decreases chars.len(),
{
    if chars.len() == 0 {
        0
    } else {
        let prev = run_px(font, chars.drop_last(), x, y);
        let (c, ox) = chars.last();
        let g = glyph_px(glyph_data(font, c), font.row_u32s_view() as int, font.height_view() as int, x - ox, y);
        if g != 0 {
            g
        } else {
            prev
        }
    }
}

/// Width of the sprite that holds `content_w` pixels of glyphs and the
/// font's overhang.
pub open spec fn run_sprite_width(content_w: int, overhang: int, valid: Seq<u32>) -> u32 {
    let need = content_w + overhang;
    pick_min_width_spec(if need < 1 { 1 } else { need as u32 }, valid)
}

/// The sprite holds exactly the run: it sits at the run's position, is the
/// narrowest valid width for the run and the overhang, `sprite_h` tall, and
/// shows the run's glyphs.
pub open spec fn sprite_holds_run<T: AgbFont>(obj: SpriteObject, font: &T, run: SpriteRun, sprite_h: u32, valid: Seq<u32>) -> bool {
    let w = run_sprite_width(run.3, font.overhang_view() as int, valid);
    &&& obj.pos.0 == run.0
    &&& obj.pos.1 == run.1
    &&& obj.width == w
    &&& obj.height == sprite_h
    &&& obj.data@.len() == (w / 8) * (sprite_h / 8) * 32
    &&& forall|x: int, y: int|
        0 <= x < w && 0 <= y < sprite_h ==> #[trigger] sprite_px(obj.data@, (w / 8) as int, x, y) == run_px(
            font,
            run.2,
            x,
            y,
        )
}

/// Glyphs that the font can draw into sprites of this height.
pub open spec fn sprite_font_ok<T: AgbFont>(font: &T) -> bool {
    &&& drawable(font)
    &&& font.height_view() <= 64
}

/// Rasterises a run of glyphs into a new sprite at the screen position (see
/// `sprite_holds_run`)
pub fn flush_sprite<T: AgbFont>(
    objects: &mut Vec<SpriteObject>,
    chars: &[(u8, u32)],
    content_w: u32,
    screen_x: i32,
    screen_y: i32,
    font: &T,
    sprite_h: u32,
    valid_widths: &[u32],
)
    requires
        sprite_font_ok(font),
        sprite_h == sprite_height_spec(font.height_view()),
        valid_widths@ == valid_widths_spec(sprite_h),
        content_w <= 0x1000_0000,
        forall|i: int| 0 <= i < chars.len() ==> font.metrics().covers(#[trigger] chars@[i].0),
    ensures
        final(objects)@.len() == old(objects)@.len() + 1,
        forall|i: int| 0 <= i < old(objects)@.len() ==> #[trigger] final(objects)@[i] == old(objects)@[i],
        sprite_holds_run(
            final(objects)@.last(),
            font,
            (screen_x as int, screen_y as int, chars@, content_w as int),
            sprite_h,
            valid_widths@,
        ),
{
    let need = content_w + font.right_overhang() as u32;
    let sprite_w = pick_min_width(if need < 1 { 1 } else { need }, valid_widths);
    proof {
        let v = valid_widths@;
        let j = choose|j: int| 0 <= j < v.len() && v[j] == sprite_w;
        assert(sprite_w == 8 || sprite_w == 16 || sprite_w == 32 || sprite_w == 64);
        assert(sprite_h == 8 || sprite_h == 16 || sprite_h == 32 || sprite_h == 64);
    }
    let w_tiles = (sprite_w / 8) as usize;
    let h_tiles = (sprite_h / 8) as usize;
    assert(w_tiles * h_tiles <= 64) by (nonlinear_arith)
        requires
            w_tiles <= 8,
            h_tiles <= 8,
    ;
    let n = w_tiles * h_tiles * 32;
    let mut data: Vec<u8> = Vec::with_capacity(n);
    let mut i: usize = 0;
    while i < n
        invariant
            0 <= i <= n,
            data@.len() == i,
            forall|j: int| 0 <= j < i ==> #[trigger] data@[j] == 0,
        decreases n - i,
    {
        data.push(0);
        i = i + 1;
    }
    let ghost run = (screen_x as int, screen_y as int, chars@, content_w as int);
    proof {
        assert(0u8 & 0xF == 0u8 && 0u8 >> 4u8 == 0u8) by (bit_vector);
        assert forall|x: int, y: int| 0 <= x < sprite_w && 0 <= y < sprite_h implies #[trigger] sprite_px(data@, w_tiles as int, x, y)
            == run_px(font, chars@.subrange(0, 0), x, y) by {
            let at = ((y / 8) * w_tiles + x / 8) * 32 + (y % 8) * 4 + (x % 8) / 2;
            assert(word_base(w_tiles as int, x, y) + 4 <= n) by (nonlinear_arith)
                requires
                    word_base(w_tiles as int, x, y) == ((y / 8) * w_tiles + x / 8) * 32 + (y % 8) * 4,
                    0 <= x / 8 < w_tiles,
                    0 <= y / 8 < h_tiles,
                    0 <= y % 8 < 8,
                    n == w_tiles * h_tiles * 32,
            ;
            assert(data@[at] == 0);
        }
    }
    let ghost q = (font.height_view() + 7) / 8;
    assert(n >= 32 * w_tiles * q) by (nonlinear_arith)
        requires
            n == w_tiles * h_tiles * 32,
            q <= h_tiles,
            w_tiles >= 0,
    ;
    let mut k: usize = 0;
    while k < chars.len()
        invariant
            0 <= k <= chars.len(),
            n >= 32 * w_tiles * ((font.height_view() + 7) / 8),
            sprite_font_ok(font),
            sprite_h == sprite_height_spec(font.height_view()),
            1 <= w_tiles <= 8,
            8 <= sprite_h <= 64,
            h_tiles == sprite_h / 8,
            sprite_w == 8 * w_tiles,
            data@.len() == n,
            n == w_tiles * h_tiles * 32,
            forall|i: int| 0 <= i < chars.len() ==> font.metrics().covers(#[trigger] chars@[i].0),
            forall|x: int, y: int|
                0 <= x < sprite_w && 0 <= y < sprite_h ==> #[trigger] sprite_px(data@, w_tiles as int, x, y) == run_px(
                    font,
                    chars@.subrange(0, k as int),
                    x,
                    y,
                ),
        decreases chars.len() - k,
    {
        let (c, ox) = chars[k];
        proof {
            assert(font.metrics().covers(chars@[k as int].0));
            lemma_glyph_in_data(font, c);
        }
        let ghost d0 = data@;
        if ox < sprite_w {
            let g = font.glyph(c);
            proof {
                let idx = c - font.metrics().offset;
                let gs = font.glyph_size_view() as int;
                assert((idx + 1) * gs - idx * gs == gs) by (nonlinear_arith);
            }
            blit_glyph_to_sprite(&mut data, w_tiles, g, font, ox as usize);
        }
        proof {
            let prefix = chars@.subrange(0, k + 1);
            assert(prefix.drop_last() =~= chars@.subrange(0, k as int));
            assert(prefix.last() == (c, ox));
            assert forall|x: int, y: int| 0 <= x < sprite_w && 0 <= y < sprite_h implies #[trigger] sprite_px(data@, w_tiles as int, x, y)
                == run_px(font, prefix, x, y) by {
                assert(word_base(w_tiles as int, x, y) + 4 <= n) by (nonlinear_arith)
                    requires
                        word_base(w_tiles as int, x, y) == ((y / 8) * w_tiles + x / 8) * 32 + (y % 8) * 4,
                        0 <= x / 8 < w_tiles,
                        0 <= y / 8 < h_tiles,
                        0 <= y % 8 < 8,
                        n == w_tiles * h_tiles * 32,
                ;
                assert(sprite_px(d0, w_tiles as int, x, y) == run_px(font, chars@.subrange(0, k as int), x, y));
            }
        }
        k = k + 1;
    }
    proof {
        assert(chars@.subrange(0, chars@.len() as int) =~= chars@);
    }
    objects.push(SpriteObject { pos: (screen_x, screen_y), width: sprite_w, height: sprite_h, data });
}

} // verus!

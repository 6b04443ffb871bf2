use vstd::prelude::*;
use crate::font::AgbFont;
use crate::layout::{
    glyphs_ink_tile,
    drawable, font_advance, glyph_data, layout_result, lemma_glyph_in_data, lemma_visual_lines_unfold, line_placements,
    max_line_width, overlay_px, text_placements, visual_lines, MAX_DRAW_LEN,
};
use crate::font::measure_spec;
use crate::lines::lemma_skip_covered;
use crate::metrics::{advance_of, lemma_prefix_width_bounds, GlyphMetrics, NEWLINE};
use crate::pixels::{blit_pixel_row_arm, lemma_zero_word, nib};
use crate::renderer::{
    blank_rows, blit_glyph_staged, cache_ok, clear_rect_in_tiles, ensure_staged_idx, in_rect, tiles_in_range,
    tiles_near, x_offset, x_offset_spec,
};
use crate::text_format::{TextAlign, TextFormat, TextOverflow};
use crate::tiles::{
    lemma_screen_push_blank, lemma_screen_px_at, lemma_screen_update, lemma_staged_ink, screen_inks_tile, screen_px, staged_ink_before, tile_is_at, tile_px, tiles_kept,
    tiles_placed, tracks, unique_tiles,
    TileRows,
};

verus! {

proof fn lemma_overlay_push<T: AgbFont>(font: &T, ps: Seq<(u8, int, int)>, p: (u8, int, int), cutoff: Option<int>, x: int, y: int)
    ensures
        overlay_px(font, ps.push(p), cutoff, x, y) == ({
            let g = if cutoff matches Some(cx) && p.1 >= cx {
                0
            } else {
                crate::renderer::glyph_px(
                    glyph_data(font, p.0),
                    font.row_u32s_view() as int,
                    font.height_view() as int,
                    x - p.1,
                    y - p.2,
                )
            };
            if g != 0 {
                g
            } else {
                overlay_px(font, ps, cutoff, x, y)
            }
        }),
{
    assert(ps.push(p).drop_last() =~= ps);
}

/// Lays the visual lines of `text` out from `pos` and stages their glyphs
/// on a blank set of tiles (see `text_placements`); glyphs whose left edge
/// reaches `cutoff_x` are skipped. Returns the cursor after the last glyph
/// relative to `pos` and the longest line's width.
pub fn stage_lines<T: AgbFont>(
    text: &[u8],
    font: &T,
    staged: &mut Vec<TileRows>,
    pos: (i32, i32),
    wrap_px: Option<u32>,
    word_wrap: bool,
    cutoff_x: Option<i32>,
    align: TextAlign,
    spacing: i8,
    line_spacing: i8,
) -> (r: (i32, i32, i32))
    requires
        drawable(font),
        font.metrics().covers_text(text@),
        text.len() <= MAX_DRAW_LEN,
        -0x1000_0000 <= pos.0 < 0x1000_0000,
        -0x1000_0000 <= pos.1 < 0x1000_0000,
    ensures
        unique_tiles(final(staged)@),
        tiles_near(final(staged)@),
        ({
            let m = font.metrics();
            let lines = visual_lines(m, text@, wrap_px, word_wrap, spacing as int);
            let adv = font_advance(font, line_spacing);
            &&& forall|x: int, y: int|
                #[trigger] screen_px(final(staged)@, x, y) == overlay_px(
                    font,
                    text_placements(m, lines, pos.0 as int, pos.1 as int, align, spacing as int, adv),
                    match cutoff_x {
                        Some(cx) => Some(cx as int),
                        None => None,
                    },
                    x,
                    y,
                )
            &&& (r.0 as int, r.1 as int, r.2 as int) == layout_result(m, lines, align, spacing as int, adv)
        }),
{
    let ghost m = font.metrics();
    let ghost all = visual_lines(m, text@, wrap_px, word_wrap, spacing as int);
    let ghost adv = font_advance(font, line_spacing);
    let ghost cutoff: Option<int> = match cutoff_x {
        Some(cx) => Some(cx as int),
        None => None,
    };
    staged.clear();
    let mut left_cache: Option<(i32, i32, usize)> = None;
    let mut right_cache: Option<(i32, i32, usize)> = None;
    let mut cursor_y = pos.1;
    let mut longest: i32 = 0;
    let mut last_cx = pos.0;
    let mut first = true;
    let mut lines = font.lines(text, wrap_px, word_wrap, spacing);
    let ghost mut done: Seq<(Seq<u8>, int)> = Seq::empty();
    let mut finished = false;
    proof {
        assert(all =~= done + visual_lines(m, lines.remaining_view(), wrap_px, word_wrap, spacing as int));
        assert forall|x: int, y: int| #[trigger] screen_px(staged@, x, y) == overlay_px(
            font,
            text_placements(m, done, pos.0 as int, pos.1 as int, align, spacing as int, adv),
            cutoff,
            x,
            y,
        ) by {}
    }
    while !finished
        invariant
            drawable(font),
            m == font.metrics(),
            adv == font_advance(font, line_spacing),
            1 <= adv <= 382,
            text.len() <= MAX_DRAW_LEN,
            -0x1000_0000 <= pos.0 < 0x1000_0000,
            -0x1000_0000 <= pos.1 < 0x1000_0000,
            cutoff == match cutoff_x {
                Some(cx) => Some(cx as int),
                None => None,
            },
            lines.wf(),
            lines.font_view() == font,
            lines.metrics_view() == m,
            lines.wrap_view() == wrap_px,
            lines.word_wrap_view() == word_wrap,
            lines.spacing_view() == spacing,
            all == visual_lines(m, text@, wrap_px, word_wrap, spacing as int),
            all == done + visual_lines(m, lines.remaining_view(), wrap_px, word_wrap, spacing as int),
            done.len() + lines.remaining_view().len() <= text.len(),
            forall|i: int| 0 <= i < done.len() ==> 0 <= #[trigger] done[i].1 <= 382 * text.len(),
            first == (done.len() == 0),
            finished ==> lines.remaining_view().len() == 0,
            unique_tiles(staged@),
            tiles_near(staged@),
            cache_ok(staged@, left_cache),
            cache_ok(staged@, right_cache),
            forall|x: int, y: int|
                #[trigger] screen_px(staged@, x, y) == overlay_px(
                    font,
                    text_placements(m, done, pos.0 as int, pos.1 as int, align, spacing as int, adv),
                    cutoff,
                    x,
                    y,
                ),
            done.len() == 0 ==> cursor_y == pos.1 && longest == 0 && last_cx == pos.0,
            done.len() > 0 ==> (last_cx - pos.0, cursor_y - pos.1, longest as int) == layout_result(
                m,
                done,
                align,
                spacing as int,
                adv,
            ),
            0 <= longest <= 382 * text.len(),
            -0x1000_0000 - 256 <= last_cx <= 0x1000_0000 + 65536 + 382 * text.len(),
            done.len() > 0 ==> cursor_y == pos.1 + (done.len() - 1) * adv,
            pos.1 <= cursor_y <= pos.1 + 382 * text.len(),
        decreases lines.remaining_view().len() + if finished { 0int } else { 1int },
    {
        let ghost rem = lines.remaining_view();
        match lines.next() {
            None => {
                finished = true;
            },
            Some((line, line_w)) => {
                proof {
                    lemma_visual_lines_unfold(m, rem, wrap_px, word_wrap, spacing as int);
                }
                let ghost prev_ps = text_placements(m, done, pos.0 as int, pos.1 as int, align, spacing as int, adv);
                proof {
                    let k = done.len() as int;
                    assert(k * adv <= 382 * text.len()) by (nonlinear_arith)
                        requires
                            k < text.len(),
                            adv <= 382,
                            0 <= k,
                    ;
                    if k > 0 {
                        assert((k - 1) * adv + adv == k * adv) by (nonlinear_arith);
                    }
                }
                if !first {
                    cursor_y = cursor_y + font.line_advance(line_spacing) as i32;
                }
                first = false;
                let ghost k = done.len();
                proof {
                    assert(cursor_y == pos.1 + k * adv) by (nonlinear_arith)
                        requires
                            k == 0 ==> cursor_y == pos.1,
                            k > 0 ==> cursor_y == pos.1 + (k - 1) * adv + adv,
                    ;
                    assert(k * adv <= 382 * text.len()) by (nonlinear_arith)
                        requires
                            k < text.len(),
                            adv <= 382,
                            0 <= k,
                    ;
                    assert forall|j: int| 0 <= j < line@.len() implies m.covers(#[trigger] line@[j]) by {
                        assert(line@[j] == rem[j]);
                        assert(rem[j] != NEWLINE);
                    }
                    lemma_prefix_width_bounds(m, line@, spacing as int, line@.len() as int);
                }
                let start_x = pos.0 + x_offset(line_w, align);
                let mut cursor_x = start_x;
                let mut n: usize = 0;
                while n < line.len()
                    invariant
                        0 <= n <= line.len(),
                        drawable(font),
                        m == font.metrics(),
                        forall|j: int| 0 <= j < line@.len() ==> m.covers(#[trigger] line@[j]),
                        line@.len() <= text.len(),
                        text.len() <= MAX_DRAW_LEN,
                        -0x1000_0000 <= pos.0 < 0x1000_0000,
                        -0x1000_0000 <= cursor_y < 0x1000_0000 + 382 * MAX_DRAW_LEN,
                        -0x1000_0000 <= start_x <= 0x1000_0000 + 65535,
                        cursor_x == start_x + m.prefix_width(line@, spacing as int, n as int),
                        cutoff == match cutoff_x {
                            Some(cx) => Some(cx as int),
                            None => None,
                        },
                        unique_tiles(staged@),
                        tiles_near(staged@),
                        cache_ok(staged@, left_cache),
                        cache_ok(staged@, right_cache),
                        forall|x: int, y: int|
                            #[trigger] screen_px(staged@, x, y) == overlay_px(
                                font,
                                prev_ps + line_placements(m, line@, start_x as int, cursor_y as int, spacing as int).take(n as int),
                                cutoff,
                                x,
                                y,
                            ),
                    decreases line.len() - n,
                {
                    let c = line[n];
                    proof {
                        lemma_prefix_width_bounds(m, line@, spacing as int, n as int);
                        lemma_prefix_width_bounds(m, line@, spacing as int, n + 1);
                        assert(m.covers(line@[n as int]));
                    }
                    if n > 0 {
                        cursor_x = cursor_x + font.letter_gap(c, spacing);
                    }
                    let ghost lp = line_placements(m, line@, start_x as int, cursor_y as int, spacing as int);
                    proof {
                        assert(cursor_x == lp[n as int].1);
                        assert(lp.take(n + 1) =~= lp.take(n as int).push(lp[n as int]));
                        assert(prev_ps + lp.take(n + 1) =~= (prev_ps + lp.take(n as int)).push(lp[n as int]));
                    }
                    let draw = match cutoff_x {
                        Some(cx) => cursor_x < cx,
                        None => true,
                    };
                    if draw {
                        proof {
                            lemma_glyph_in_data(font, c);
                        }
                        let g = font.glyph(c);
                        proof {
                            let i = c - m.offset;
                            let gs = font.glyph_size_view() as int;
                            assert((i + 1) * gs - i * gs == gs) by (nonlinear_arith);
                        }
                        let ghost s0 = staged@;
                        blit_glyph_staged(g, font, staged, cursor_x, cursor_y, &mut left_cache, &mut right_cache);
                        proof {
                            assert forall|x: int, y: int| #[trigger] screen_px(staged@, x, y) == overlay_px(
                                font,
                                prev_ps + lp.take(n + 1),
                                cutoff,
                                x,
                                y,
                            ) by {
                                lemma_overlay_push(font, prev_ps + lp.take(n as int), lp[n as int], cutoff, x, y);
                                assert(screen_px(s0, x, y) == overlay_px(font, prev_ps + lp.take(n as int), cutoff, x, y));
                            }
                        }
                    } else {
                        proof {
                            assert forall|x: int, y: int| #[trigger] screen_px(staged@, x, y) == overlay_px(
                                font,
                                prev_ps + lp.take(n + 1),
                                cutoff,
                                x,
                                y,
                            ) by {
                                lemma_overlay_push(font, prev_ps + lp.take(n as int), lp[n as int], cutoff, x, y);
                            }
                        }
                    }
                    cursor_x = cursor_x + font.char_width(c) as i32;
                    n = n + 1;
                }
                proof {
                    let lp = line_placements(m, line@, start_x as int, cursor_y as int, spacing as int);
                    assert(lp.take(line@.len() as int) =~= lp);
                    let done2 = done.push((line@, line_w as int));
                    assert(done2.drop_last() =~= done);
                    assert(text_placements(m, done2, pos.0 as int, pos.1 as int, align, spacing as int, adv) == prev_ps
                        + lp);
                    assert(all =~= done2 + visual_lines(m, lines.remaining_view(), wrap_px, word_wrap, spacing as int));
                    assert(max_line_width(done2) == if line_w > max_line_width(done) {
                        line_w as int
                    } else {
                        max_line_width(done)
                    });
                    done = done2;
                }
                if line_w as i32 > longest {
                    longest = line_w as i32;
                }
                last_cx = cursor_x;
            },
        }
    }
    proof {
        assert(visual_lines(m, lines.remaining_view(), wrap_px, word_wrap, spacing as int) =~= Seq::empty());
        assert(all =~= done);
    }
    (last_cx - pos.0, cursor_y - pos.1, longest)
}

/// Whether every row of a tile is transparent.
fn rows_blank(rows: &[u32; 8]) -> (r: bool)
    ensures
        r == blank_rows(*rows),
{
    let mut k: usize = 0;
    while k < 8
        invariant
            0 <= k <= 8,
            forall|j: int| 0 <= j < k ==> #[trigger] rows@[j] == 0,
        decreases 8 - k,
    {
        if rows[k] != 0 {
            return false;
        }
        k = k + 1;
    }
    true
}

/// `dst` with every inked pixel of `src` drawn over it.
fn blit_tile(dst: [u32; 8], src: &[u32; 8]) -> (r: [u32; 8])
    ensures
        forall|x: int, y: int|
            0 <= x < 8 && 0 <= y < 8 ==> #[trigger] tile_px(r, x, y) == if tile_px(*src, x, y) != 0 {
                tile_px(*src, x, y)
            } else {
                tile_px(dst, x, y)
            },
{
    let mut out = dst;
    let mut k: usize = 0;
    while k < 8
        invariant
            0 <= k <= 8,
            forall|y: int| k <= y < 8 ==> #[trigger] out@[y] == dst@[y],
            forall|x: int, y: int|
                0 <= x < 8 && 0 <= y < k ==> #[trigger] tile_px(out, x, y) == if tile_px(*src, x, y) != 0 {
                    tile_px(*src, x, y)
                } else {
                    tile_px(dst, x, y)
                },
        decreases 8 - k,
    {
        let mut row = out[k];
        let ghost before = out;
        blit_pixel_row_arm(&mut row, src[k]);
        out[k] = row;
        proof {
            assert forall|x: int, y: int| 0 <= x < 8 && 0 <= y < k + 1 implies #[trigger] tile_px(out, x, y) == if tile_px(
                *src,
                x,
                y,
            ) != 0 {
                tile_px(*src, x, y)
            } else {
                tile_px(dst, x, y)
            } by {
                if y == k {
                    assert(out@[k as int] == row);
                    assert(before@[k as int] == dst@[k as int]);
                    assert(nib(row, x as u32) == if nib(src@[k as int], x as u32) != 0 {
                        nib(src@[k as int], x as u32)
                    } else {
                        nib(before@[k as int], x as u32)
                    });
                } else {
                    assert(out@[y] == before@[y]);
                    assert(tile_px(before, x, y) == if tile_px(*src, x, y) != 0 {
                        tile_px(*src, x, y)
                    } else {
                        tile_px(dst, x, y)
                    });
                }
            }
        }
        k = k + 1;
    }
    out
}

/// A blank tile shows no pixel.
proof fn lemma_blank_tile_px(rows: [u32; 8], x: int, y: int)
    requires
        blank_rows(rows),
        0 <= x < 8,
        0 <= y < 8,
    ensures
        tile_px(rows, x, y) == 0,
{
    lemma_zero_word(0u32);
    assert(rows@[y] == 0);
    assert(nib(0u32, x as u32) == 0);
}

/// Screen of `base` with the inked pixels of the staged tiles `0..j` drawn
/// over it.
pub open spec fn committed_px(base: Seq<TileRows>, staged: Seq<TileRows>, j: int, x: int, y: int) -> u32 {
    let sp = screen_px(staged, x, y);
    if (exists|i: int| 0 <= i < j && #[trigger] tile_is_at(staged, i, x / 8, y / 8)) && sp != 0 {
        sp
    } else {
        screen_px(base, x, y)
    }
}

/// Draws the inked pixels of the staged tiles over the tracked tiles,
/// adding a blank tile under every staged tile that has ink and no tile yet;
/// existing tiles keep their positions
fn commit_staged(
    tiles: &mut Vec<TileRows>,
    cache: &mut Option<(i32, i32, usize)>,
    staged: &Vec<TileRows>,
    pal: u8,
)
    requires
        unique_tiles(old(tiles)@),
        tiles_near(old(tiles)@),
        cache_ok(old(tiles)@, *old(cache)),
        unique_tiles(staged@),
        tiles_near(staged@),
    ensures
        unique_tiles(final(tiles)@),
        tiles_near(final(tiles)@),
        cache_ok(final(tiles)@, *final(cache)),
        tiles_placed(old(tiles)@, final(tiles)@, pal),
        forall|tx: int, ty: int|
            #[trigger] tracks(final(tiles)@, tx, ty) <==> tracks(old(tiles)@, tx, ty) || screen_inks_tile(staged@, tx, ty),
        forall|x: int, y: int|
            #[trigger] screen_px(final(tiles)@, x, y) == if screen_px(staged@, x, y) != 0 {
                screen_px(staged@, x, y)
            } else {
                screen_px(old(tiles)@, x, y)
            },
{
    let ghost base = tiles@;
    let mut j: usize = 0;
    while j < staged.len()
        invariant
            0 <= j <= staged.len(),
            unique_tiles(staged@),
            tiles_near(staged@),
            unique_tiles(tiles@),
            tiles_near(tiles@),
            cache_ok(tiles@, *cache),
            tiles_placed(base, tiles@, pal),
            forall|tx: int, ty: int|
                #[trigger] tracks(tiles@, tx, ty) <==> tracks(base, tx, ty) || staged_ink_before(staged@, j as int, tx, ty),
            forall|x: int, y: int| #[trigger] screen_px(tiles@, x, y) == committed_px(base, staged@, j as int, x, y),
        decreases staged.len() - j,
    {
        let (sx, sy, srows, _) = staged[j];
        let ghost t0 = tiles@;
        if rows_blank(&srows) {
            proof {
                assert forall|tx: int, ty: int| #[trigger] tracks(tiles@, tx, ty) <==> tracks(base, tx, ty) || staged_ink_before(
                    staged@,
                    j + 1,
                    tx,
                    ty,
                ) by {
                    if staged_ink_before(staged@, j + 1, tx, ty) {
                        let i = choose|i: int| 0 <= i < j + 1 && #[trigger] tile_is_at(staged@, i, tx, ty) && !blank_rows(staged@[i].2);
                        assert(i != j);
                        assert(staged_ink_before(staged@, j as int, tx, ty));
                    }
                    if staged_ink_before(staged@, j as int, tx, ty) {
                        let i = choose|i: int| 0 <= i < j && #[trigger] tile_is_at(staged@, i, tx, ty) && !blank_rows(staged@[i].2);
                        assert(staged_ink_before(staged@, j + 1, tx, ty));
                    }
                }
                assert forall|x: int, y: int| #[trigger] screen_px(tiles@, x, y) == committed_px(base, staged@, j + 1, x, y) by {
                    assert(screen_px(tiles@, x, y) == committed_px(base, staged@, j as int, x, y));
                    if tile_is_at(staged@, j as int, x / 8, y / 8) {
                        lemma_screen_px_at(staged@, j as int, x, y);
                        lemma_blank_tile_px(srows, x % 8, y % 8);
                    } else {
                        if exists|i: int| 0 <= i < j + 1 && #[trigger] tile_is_at(staged@, i, x / 8, y / 8) {
                            let i = choose|i: int| 0 <= i < j + 1 && #[trigger] tile_is_at(staged@, i, x / 8, y / 8);
                            assert(i < j);
                        }
                    }
                }
            }
        } else {
            let idx = ensure_staged_idx(tiles, sx, sy, cache, pal);
            let ghost t1 = tiles@;
            proof {
                if !(exists|i: int| #[trigger] tile_is_at(t0, i, sx as int, sy as int)) {
                    assert(t1 =~= t0.push(t1.last()));
                    assert forall|x: int, y: int| #[trigger] screen_px(t1, x, y) == screen_px(t0, x, y) by {
                        lemma_screen_push_blank(t0, t1.last(), x, y);
                    }
                    assert forall|i: int| 0 <= i < t1.len() implies -0x0800_0000 <= #[trigger] t1[i].0 < 0x0800_0000
                        && -0x0800_0000 <= t1[i].1 < 0x0800_0000 by {
                        if i < t0.len() {
                            assert(t1[i] == t1.drop_last()[i]);
                        }
                    }
                    assert forall|i: int| 0 <= i < t0.len() implies #[trigger] t1[i] == t0[i] by {
                        assert(t1[i] == t1.drop_last()[i]);
                    }
                    assert(tiles_placed(base, t1, pal));
                }
            }
            proof {
                assert forall|ax: int, ay: int| #[trigger] tracks(t1, ax, ay) <==> tracks(t0, ax, ay) || (ax == sx && ay == sy) by {
                    if exists|i: int| #[trigger] tile_is_at(t0, i, sx as int, sy as int) {
                    } else {
                        if tracks(t0, ax, ay) {
                            let i = choose|i: int| #[trigger] tile_is_at(t0, i, ax, ay);
                            assert(t1[i] == t0[i]);
                            assert(tile_is_at(t1, i, ax, ay));
                        }
                        if ax == sx && ay == sy {
                            assert(tile_is_at(t1, t1.len() - 1, ax, ay));
                        }
                        if tracks(t1, ax, ay) {
                            let i = choose|i: int| #[trigger] tile_is_at(t1, i, ax, ay);
                            if i < t0.len() {
                                assert(t1[i] == t0[i]);
                                assert(tile_is_at(t0, i, ax, ay));
                            }
                        }
                    }
                }
                assert forall|ax: int, ay: int| #[trigger] staged_ink_before(staged@, j + 1, ax, ay) <==> staged_ink_before(
                    staged@,
                    j as int,
                    ax,
                    ay,
                ) || (ax == sx && ay == sy) by {
                    if ax == sx && ay == sy {
                        assert(tile_is_at(staged@, j as int, ax, ay));
                    }
                    if staged_ink_before(staged@, j + 1, ax, ay) {
                        let i = choose|i: int| 0 <= i < j + 1 && #[trigger] tile_is_at(staged@, i, ax, ay) && !blank_rows(staged@[i].2);
                        if i < j {
                            assert(staged_ink_before(staged@, j as int, ax, ay));
                        }
                    }
                    if staged_ink_before(staged@, j as int, ax, ay) {
                        let i = choose|i: int| 0 <= i < j && #[trigger] tile_is_at(staged@, i, ax, ay) && !blank_rows(staged@[i].2);
                        assert(staged_ink_before(staged@, j + 1, ax, ay));
                    }
                }
            }
            let (tx, ty, trows, tp) = tiles[idx];
            let new_rows = blit_tile(trows, &srows);
            tiles.set(idx, (tx, ty, new_rows, tp));
            proof {
                assert forall|ax: int, ay: int| #[trigger] tracks(tiles@, ax, ay) <==> tracks(t1, ax, ay) by {
                    if tracks(tiles@, ax, ay) {
                        let i = choose|i: int| #[trigger] tile_is_at(tiles@, i, ax, ay);
                        assert(tile_is_at(t1, i, ax, ay));
                    }
                    if tracks(t1, ax, ay) {
                        let i = choose|i: int| #[trigger] tile_is_at(t1, i, ax, ay);
                        assert(tile_is_at(tiles@, i, ax, ay));
                    }
                }
                assert(tiles@ == t1.update(idx as int, (t1[idx as int].0, t1[idx as int].1, new_rows, t1[idx as int].3)));
                assert forall|x: int, y: int| #[trigger] screen_px(tiles@, x, y) == committed_px(base, staged@, j + 1, x, y) by {
                    lemma_screen_update(t1, idx as int, new_rows, x, y);
                    assert(screen_px(t0, x, y) == committed_px(base, staged@, j as int, x, y));
                    if tx == x / 8 && ty == y / 8 {
                        assert(tile_is_at(staged@, j as int, x / 8, y / 8));
                        lemma_screen_px_at(staged@, j as int, x, y);
                        lemma_screen_px_at(t1, idx as int, x, y);
                        if exists|i: int| 0 <= i < j && #[trigger] tile_is_at(staged@, i, x / 8, y / 8) {
                            let i = choose|i: int| 0 <= i < j && #[trigger] tile_is_at(staged@, i, x / 8, y / 8);
                            assert((staged@[i].0, staged@[i].1) != (staged@[j as int].0, staged@[j as int].1));
                        }
                    } else {
                        if exists|i: int| 0 <= i < j + 1 && #[trigger] tile_is_at(staged@, i, x / 8, y / 8) {
                            let i = choose|i: int| 0 <= i < j + 1 && #[trigger] tile_is_at(staged@, i, x / 8, y / 8);
                            assert(i < j);
                        }
                    }
                }
                if let Some((cx, cy, ci)) = *cache {
                    assert(tile_is_at(t1, ci as int, cx as int, cy as int));
                }
                assert forall|i: int| 0 <= i < tiles@.len() implies -0x0800_0000 <= #[trigger] tiles@[i].0 < 0x0800_0000
                    && -0x0800_0000 <= tiles@[i].1 < 0x0800_0000 by {
                    assert(tiles@[i].0 == t1[i].0 && tiles@[i].1 == t1[i].1);
                }
            }
        }
        j = j + 1;
    }
    proof {
        assert forall|x: int, y: int| #[trigger] screen_px(tiles@, x, y) == if screen_px(staged@, x, y) != 0 {
            screen_px(staged@, x, y)
        } else {
            screen_px(base, x, y)
        } by {
            assert(screen_px(tiles@, x, y) == committed_px(base, staged@, staged@.len() as int, x, y));
            if screen_px(staged@, x, y) != 0 {
                if !(exists|i: int| #[trigger] tile_is_at(staged@, i, x / 8, y / 8)) {
                    assert(false);
                } else {
                    let i = choose|i: int| #[trigger] tile_is_at(staged@, i, x / 8, y / 8);
                    assert(0 <= i < staged@.len());
                }
            }
        }
        assert forall|tx: int, ty: int| #[trigger] tracks(tiles@, tx, ty) <==> tracks(base, tx, ty) || screen_inks_tile(
            staged@,
            tx,
            ty,
        ) by {
            lemma_staged_ink(staged@, tx, ty);
        }
    }
}

/// After clearing a rectangle the screen is transparent inside it and as
/// before outside it.
proof fn lemma_clear_screen(before: Seq<TileRows>, after: Seq<TileRows>, pos: (i32, i32), size: (i32, i32), x: int, y: int)
    requires
        unique_tiles(before),
        after.len() == before.len(),
        forall|i: int| #![trigger after[i]] 0 <= i < before.len() ==> after[i].0 == before[i].0 && after[i].1 == before[i].1,
        forall|i: int, x2: int, y2: int|
            0 <= i < before.len() && 0 <= x2 < 8 && 0 <= y2 < 8 ==> #[trigger] tile_px(after[i].2, x2, y2) == if in_rect(
                pos,
                size,
                before[i].0 * 8 + x2,
                before[i].1 * 8 + y2,
            ) {
                0
            } else {
                tile_px(before[i].2, x2, y2)
            },
    ensures
        unique_tiles(after),
        screen_px(after, x, y) == if in_rect(pos, size, x, y) {
            0
        } else {
            screen_px(before, x, y)
        },
{
    assert forall|a: int, b: int|
        0 <= a < after.len() && 0 <= b < after.len() && a != b implies (#[trigger] after[a].0, after[a].1) != (#[trigger] after[b].0, after[b].1) by {
        assert((before[a].0, before[a].1) != (before[b].0, before[b].1));
    }
    if exists|i: int| #[trigger] tile_is_at(before, i, x / 8, y / 8) {
        let i = choose|i: int| #[trigger] tile_is_at(before, i, x / 8, y / 8);
        assert(after[i].0 == before[i].0 && after[i].1 == before[i].1);
        assert(tile_is_at(after, i, x / 8, y / 8));
        lemma_screen_px_at(before, i, x, y);
        lemma_screen_px_at(after, i, x, y);
        assert(before[i].0 * 8 + x % 8 == x && before[i].1 * 8 + y % 8 == y);
        assert(tile_px(after[i].2, x % 8, y % 8) == if in_rect(pos, size, before[i].0 * 8 + x % 8, before[i].1 * 8 + y % 8) {
            0
        } else {
            tile_px(before[i].2, x % 8, y % 8)
        });
    } else {
        if exists|i: int| #[trigger] tile_is_at(after, i, x / 8, y / 8) {
            let i = choose|i: int| #[trigger] tile_is_at(after, i, x / 8, y / 8);
            assert(after[i].0 == before[i].0 && after[i].1 == before[i].1);
            assert(tile_is_at(before, i, x / 8, y / 8));
        }
    }
}

/// Wrap width and word wrapping of an overflow setting.
pub open spec fn overflow_wrap(overflow: TextOverflow) -> (Option<u32>, bool) {
    match overflow {
        TextOverflow::Wrap(w, ww) => (Some(w as u32), ww),
        _ => (None, false),
    }
}

/// The clear rectangle of a draw: the format's, widened by the font's right
/// overhang when it has a width.
pub open spec fn clear_size_of<T: AgbFont>(font: &T, clear: (u16, u16)) -> (i32, i32) {
    if clear.0 > 0 {
        ((clear.0 + font.overhang_view()) as i32, clear.1 as i32)
    } else {
        (clear.0 as i32, clear.1 as i32)
    }
}

/// Screen pixel `(x, y)` after `text` is drawn over `before` at `pos`:
/// the inked pixels of its glyphs where there are any, else transparent in
/// the clear rectangle, else as before.
pub open spec fn drawn_text_px<T: AgbFont>(
    font: &T,
    before: Seq<TileRows>,
    text: Seq<u8>,
    pos: (i32, i32),
    format: TextFormat,
    spacing: i8,
    line_spacing: i8,
    x: int,
    y: int,
) -> u32 {
    let m = font.metrics();
    let (wrap_px, word_wrap) = overflow_wrap(format.overflow);
    let cutoff: Option<int> = match format.overflow {
        TextOverflow::Cutoff(w) => Some(pos.0 + w),
        _ => None,
    };
    let ps = text_placements(
        m,
        visual_lines(m, text, wrap_px, word_wrap, spacing as int),
        pos.0 as int,
        pos.1 as int,
        format.align,
        spacing as int,
        font_advance(font, line_spacing),
    );
    let sp = overlay_px(font, ps, cutoff, x, y);
    if sp != 0 {
        sp
    } else if in_rect(pos, clear_size_of(font, format.clear), x, y) {
        0
    } else {
        screen_px(before, x, y)
    }
}

/// Some pixel of the tile at column `tx`, row `ty` is inked by the glyphs
/// that drawing `text` at `pos` with `format` places (see `drawn_text_px`).
pub open spec fn text_inks_tile<T: AgbFont>(
    font: &T,
    text: Seq<u8>,
    pos: (i32, i32),
    format: TextFormat,
    spacing: i8,
    line_spacing: i8,
    tx: int,
    ty: int,
) -> bool {
    let m = font.metrics();
    let (wrap_px, word_wrap) = overflow_wrap(format.overflow);
    let cutoff: Option<int> = match format.overflow {
        TextOverflow::Cutoff(w) => Some(pos.0 + w),
        _ => None,
    };
    let ps = text_placements(
        m,
        visual_lines(m, text, wrap_px, word_wrap, spacing as int),
        pos.0 as int,
        pos.1 as int,
        format.align,
        spacing as int,
        font_advance(font, line_spacing),
    );
    glyphs_ink_tile(font, ps, cutoff, tx, ty)
}

/// A staged screen that shows exactly the glyphs inks the same tiles.
proof fn lemma_ink_transfer<T: AgbFont>(
    font: &T,
    staged: Seq<TileRows>,
    ps: Seq<(u8, int, int)>,
    cutoff: Option<int>,
    tx: int,
    ty: int,
)
    requires
        forall|x: int, y: int| #[trigger] screen_px(staged, x, y) == overlay_px(font, ps, cutoff, x, y),
    ensures
        screen_inks_tile(staged, tx, ty) <==> glyphs_ink_tile(font, ps, cutoff, tx, ty),
{
    if screen_inks_tile(staged, tx, ty) {
        let (x, y) = choose|x: int, y: int| x / 8 == tx && y / 8 == ty && #[trigger] screen_px(staged, x, y) != 0;
        assert(overlay_px(font, ps, cutoff, x, y) != 0);
    }
    if glyphs_ink_tile(font, ps, cutoff, tx, ty) {
        let (x, y) = choose|x: int, y: int| x / 8 == tx && y / 8 == ty && #[trigger] overlay_px(font, ps, cutoff, x, y) != 0;
        assert(screen_px(staged, x, y) != 0);
    }
}

/// Tiles at the same positions track the same places.
proof fn lemma_tracks_same(a: Seq<TileRows>, b: Seq<TileRows>, tx: int, ty: int)
    requires
        a.len() == b.len(),
        forall|i: int| #![trigger b[i]] 0 <= i < a.len() ==> b[i].0 == a[i].0 && b[i].1 == a[i].1,
    ensures
        tracks(a, tx, ty) <==> tracks(b, tx, ty),
{
    if tracks(a, tx, ty) {
        let i = choose|i: int| #[trigger] tile_is_at(a, i, tx, ty);
        assert(tile_is_at(b, i, tx, ty));
    }
    if tracks(b, tx, ty) {
        let i = choose|i: int| #[trigger] tile_is_at(b, i, tx, ty);
        assert(tile_is_at(a, i, tx, ty));
    }
}

/// The tiles a renderer has placed, a lookup cache and a reusable staging
/// buffer.
pub struct TilePool {
    tiles: Vec<TileRows>,
    last_idx_cache: Option<(i32, i32, usize)>,
    staged: Vec<TileRows>,
}

impl TilePool {
    /// The tracked tiles, in the order they were placed.
    pub closed spec fn tiles_view(&self) -> Seq<TileRows> {
        self.tiles@
    }

    /// Tracked tiles sit at distinct positions near the origin and the
    /// lookup cache names one of them.
    pub closed spec fn wf(&self) -> bool {
        &&& unique_tiles(self.tiles@)
        &&& tiles_near(self.tiles@)
        &&& cache_ok(self.tiles@, self.last_idx_cache)
    }
}

/// Wrap width of an overflow setting.
pub open spec fn overflow_wrap_px(overflow: TextOverflow) -> Option<u16> {
    match overflow {
        TextOverflow::Wrap(w, _) => Some(w),
        _ => None,
    }
}

/// Cutoff column of an overflow setting, counted from `left_margin`.
pub open spec fn overflow_cutoff(overflow: TextOverflow, left_margin: i32) -> Option<int> {
    match overflow {
        TextOverflow::Cutoff(w) => Some(left_margin + w),
        _ => None,
    }
}

/// A clear rectangle widened by the font's right overhang when it has a
/// width.
pub open spec fn widened_clear<T: AgbFont>(font: &T, clear: (i32, i32)) -> (i32, i32) {
    if clear.0 > 0 {
        ((clear.0 + font.overhang_view()) as i32, clear.1)
    } else {
        clear
    }
}

/// Character-by-character layout of a draw (see `char_layout`).
pub open spec fn char_draw_layout<T: AgbFont>(
    font: &T,
    text: Seq<u8>,
    pos: (i32, i32),
    overflow: TextOverflow,
    align: TextAlign,
    initial_line_w: i32,
    left_margin: i32,
    spacing: i8,
    line_spacing: i8,
) -> CharLayout {
    char_layout(
        font.metrics(),
        text,
        pos,
        overflow_wrap_px(overflow),
        align,
        initial_line_w as int,
        left_margin as int,
        spacing as int,
        font_advance(font, line_spacing),
    )
}

/// What a character-by-character draw returns: the cursor relative to
/// `pos` and the longest line, the current one included.
pub open spec fn char_draw_result(layout: CharLayout, pos: (i32, i32)) -> (int, int, int) {
    let (x, y, line_w, longest, _) = layout;
    (
        x - pos.0,
        y - pos.1,
        if line_w > longest {
            line_w
        } else {
            longest
        },
    )
}

/// Screen pixel `(x, y)` after glyphs placed at `ps` are drawn over
/// `before`: the inked glyph pixels where there are any, else transparent in
/// the clear rectangle at `pos`, else as before.
pub open spec fn char_drawn_px<T: AgbFont>(
    font: &T,
    before: Seq<TileRows>,
    ps: Seq<(u8, int, int)>,
    cutoff: Option<int>,
    pos: (i32, i32),
    clear: (i32, i32),
    x: int,
    y: int,
) -> u32 {
    let sp = overlay_px(font, ps, cutoff, x, y);
    if sp != 0 {
        sp
    } else if in_rect(pos, clear, x, y) {
        0
    } else {
        screen_px(before, x, y)
    }
}

/// Renders text glyphs into 8x8 background tiles of 4bpp pixels, tracking
/// the tiles it has placed
pub struct TextRenderer {
    pub pool: TilePool,
    pub palette_id: u8,
    /// Extra pixels inserted between adjacent characters (default 1)
    pub letter_spacing: i8,
    /// Extra pixels inserted between adjacent lines (default 0)
    pub line_spacing: i8,
}

impl Default for TextRenderer {
    fn default() -> (r: Self)
        ensures
            r.wf(),
            r.tiles_view().len() == 0,
            r.palette_id == 15,
            r.letter_spacing == 1,
            r.line_spacing == 0,
    {
        TextRenderer {
            pool: TilePool { tiles: Vec::with_capacity(64), last_idx_cache: None, staged: Vec::with_capacity(48) },
            palette_id: 15,
            letter_spacing: 1,
            line_spacing: 0,
        }
    }
}

impl TextRenderer {
    /// The tracked tiles, in the order they were placed.
    pub open spec fn tiles_view(&self) -> Seq<TileRows> {
        self.pool.tiles_view()
    }

    /// The tile pool is well formed.
    pub open spec fn wf(&self) -> bool {
        self.pool.wf()
    }

    /// The tracked tiles
    pub fn tiles(&self) -> (r: &[TileRows])
        ensures
            r@ == self.tiles_view(),
    {
        self.pool.tiles.as_slice()
    }

    /// Number of tiles currently placed by this renderer
    pub fn tile_count(&self) -> (r: usize)
        ensures
            r == self.tiles_view().len(),
    {
        self.pool.tiles.len()
    }

    /// Clear all pixels in tracked tiles. Pass `drop_tiles: true` to drop the
    /// tiles instead
    pub fn reset(&mut self, drop_tiles: bool)
        requires
            old(self).wf(),
        ensures
            final(self).wf(),
            final(self).palette_id == old(self).palette_id,
            final(self).letter_spacing == old(self).letter_spacing,
            final(self).line_spacing == old(self).line_spacing,
            drop_tiles ==> final(self).tiles_view().len() == 0,
            !drop_tiles ==> {
                &&& tiles_kept(old(self).tiles_view(), final(self).tiles_view())
                &&& forall|i: int|
                    0 <= i < old(self).tiles_view().len() ==> blank_rows(#[trigger] final(self).tiles_view()[i].2)
            },
    {
        if drop_tiles {
            self.pool.tiles.clear();
        } else {
            let ghost orig = self.pool.tiles@;
            let mut i: usize = 0;
            while i < self.pool.tiles.len()
                invariant
                    0 <= i <= self.pool.tiles.len(),
                    self.palette_id == old(self).palette_id,
                    self.letter_spacing == old(self).letter_spacing,
                    self.line_spacing == old(self).line_spacing,
                    tiles_kept(orig, self.pool.tiles@),
                    forall|j: int| 0 <= j < i ==> blank_rows(#[trigger] self.pool.tiles@[j].2),
                decreases orig.len() - i,
            {
                let (x, y, _, p) = self.pool.tiles[i];
                self.pool.tiles.set(i, (x, y, [0u32; 8], p));
                i = i + 1;
            }
            proof {
                assert forall|a: int, b: int|
                    0 <= a < self.pool.tiles@.len() && 0 <= b < self.pool.tiles@.len() && a != b implies (
                    #[trigger] self.pool.tiles@[a].0, self.pool.tiles@[a].1) != (#[trigger] self.pool.tiles@[b].0, self.pool.tiles@[b].1) by {
                    assert((orig[a].0, orig[a].1) != (orig[b].0, orig[b].1));
                }
            }
        }
        self.pool.last_idx_cache = None;
    }

    /// Render `text` at `pos` with `format`
    ///
    /// Returns `(cursor_dx, cursor_dy, longest_line_px)`: the bottom right of
    /// the last character drawn relative to `pos` (y at the top of the last
    /// line) and the width of the longest line. A tile is placed only where
    /// a glyph inks a pixel and no tile is tracked yet, so blank tiles stay
    /// unallocated; newly placed tiles are shown with `palette_id`
    pub fn draw_text<T: AgbFont>(&mut self, text: &[u8], font: &T, pos: (i32, i32), format: &TextFormat) -> (r: (
        i32,
        i32,
        i32,
    ))
        requires
            old(self).wf(),
            drawable(font),
            font.metrics().covers_text(text@),
            text.len() <= MAX_DRAW_LEN,
            -0x1000_0000 <= pos.0 < 0x1000_0000,
            -0x1000_0000 <= pos.1 < 0x1000_0000,
        ensures
            final(self).wf(),
            final(self).palette_id == old(self).palette_id,
            final(self).letter_spacing == old(self).letter_spacing,
            final(self).line_spacing == old(self).line_spacing,
            tiles_placed(old(self).tiles_view(), final(self).tiles_view(), old(self).palette_id),
            forall|tx: int, ty: int|
                #[trigger] tracks(final(self).tiles_view(), tx, ty) <==> tracks(old(self).tiles_view(), tx, ty)
                    || text_inks_tile(font, text@, pos, *format, old(self).letter_spacing, old(self).line_spacing, tx, ty),
            (r.0 as int, r.1 as int, r.2 as int) == layout_result(
                font.metrics(),
                visual_lines(
                    font.metrics(),
                    text@,
                    overflow_wrap(format.overflow).0,
                    overflow_wrap(format.overflow).1,
                    old(self).letter_spacing as int,
                ),
                format.align,
                old(self).letter_spacing as int,
                font_advance(font, old(self).line_spacing),
            ),
            forall|x: int, y: int|
                #[trigger] screen_px(final(self).tiles_view(), x, y) == drawn_text_px(
                    font,
                    old(self).tiles_view(),
                    text@,
                    pos,
                    *format,
                    old(self).letter_spacing,
                    old(self).line_spacing,
                    x,
                    y,
                ),
    {
        let (wrap_px, word_wrap) = match format.overflow {
            TextOverflow::Wrap(w, ww) => (Some(w as u32), ww),
            _ => (None, false),
        };
        let cutoff_x = match format.overflow {
            TextOverflow::Cutoff(w) => Some(pos.0 + w as i32),
            _ => None,
        };
        let r = stage_lines(
            text,
            font,
            &mut self.pool.staged,
            pos,
            wrap_px,
            word_wrap,
            cutoff_x,
            format.align,
            self.letter_spacing,
            self.line_spacing,
        );
        let clear_w = format.clear.0 as i32;
        let clear_size = if clear_w > 0 {
            (clear_w + font.right_overhang() as i32, format.clear.1 as i32)
        } else {
            (clear_w, format.clear.1 as i32)
        };
        let ghost t0 = self.pool.tiles@;
        clear_rect_in_tiles(&mut self.pool.tiles, pos, clear_size);
        let ghost t1 = self.pool.tiles@;
        proof {
            assert forall|i: int| #![trigger t1[i]] 0 <= i < t0.len() implies t1[i].0 == t0[i].0 && t1[i].1 == t0[i].1 by {}
            assert forall|x: int, y: int| #[trigger] screen_px(t1, x, y) == if in_rect(pos, clear_size, x, y) {
                0
            } else {
                screen_px(t0, x, y)
            } by {
                lemma_clear_screen(t0, t1, pos, clear_size, x, y);
            }
            lemma_clear_screen(t0, t1, pos, clear_size, 0, 0);
            if let Some((cx, cy, ci)) = self.pool.last_idx_cache {
                assert(tile_is_at(t0, ci as int, cx as int, cy as int));
                assert(t1[ci as int].0 == t0[ci as int].0 && t1[ci as int].1 == t0[ci as int].1);
            }
            assert forall|i: int| 0 <= i < t1.len() implies -0x0800_0000 <= #[trigger] t1[i].0 < 0x0800_0000 && -0x0800_0000
                <= t1[i].1 < 0x0800_0000 by {
                assert(t1[i].0 == t0[i].0 && t1[i].1 == t0[i].1);
            }
        }
        let ghost staged = self.pool.staged@;
        commit_staged(&mut self.pool.tiles, &mut self.pool.last_idx_cache, &self.pool.staged, self.palette_id);
        proof {
            let m = font.metrics();
            let cutoff: Option<int> = match format.overflow {
                TextOverflow::Cutoff(w) => Some(pos.0 + w),
                _ => None,
            };
            let ps = text_placements(
                m,
                visual_lines(m, text@, wrap_px, word_wrap, self.letter_spacing as int),
                pos.0 as int,
                pos.1 as int,
                format.align,
                self.letter_spacing as int,
                font_advance(font, self.line_spacing),
            );
            assert forall|tx: int, ty: int| #[trigger] tracks(self.pool.tiles@, tx, ty) <==> tracks(t0, tx, ty)
                || text_inks_tile(font, text@, pos, *format, self.letter_spacing, self.line_spacing, tx, ty) by {
                lemma_tracks_same(t0, t1, tx, ty);
                lemma_ink_transfer(font, staged, ps, cutoff, tx, ty);
            }
        }
        r
    }

    /// Draws `text` character by character from `pos` (see `char_layout`)
    /// with `initial_line_w` pixels of the current line used and new lines
    /// starting at `left_margin_x`; `clear_size`, widened by the font's
    /// overhang when it has a width, is cleared at `pos` first. `palette_id`
    /// is the palette that newly placed tiles are shown with; tiles are placed
    /// only where a glyph inks a pixel and none is tracked yet
    ///
    /// Returns the cursor relative to `pos` and the longest line's width
    pub(crate) fn int_draw_text<T: AgbFont>(
        &mut self,
        text: &[u8],
        font: &T,
        pos: (i32, i32),
        overflow: TextOverflow,
        alignment: TextAlign,
        palette_id: u8,
        clear_size: (i32, i32),
        initial_line_w: i32,
        left_margin_x: i32,
    ) -> (r: (i32, i32, i32))
        requires
            old(self).wf(),
            drawable(font),
            font.metrics().covers_text(text@),
            text.len() <= MAX_DRAW_LEN,
            -0x1000_0000 <= pos.0 < 0x1000_0000,
            -0x1000_0000 <= pos.1 < 0x1000_0000,
            -0x1000_0000 <= left_margin_x < 0x1000_0000,
            -0x1000_0000 <= initial_line_w < 0x1000_0000,
            clear_size.0 < 0x1000_0000,
            clear_size.1 < 0x1000_0000,
        ensures
            final(self).wf(),
            final(self).palette_id == old(self).palette_id,
            final(self).letter_spacing == old(self).letter_spacing,
            final(self).line_spacing == old(self).line_spacing,
            tiles_placed(old(self).tiles_view(), final(self).tiles_view(), palette_id),
            ({
                let layout = char_draw_layout(
                    font,
                    text@,
                    pos,
                    overflow,
                    alignment,
                    initial_line_w,
                    left_margin_x,
                    old(self).letter_spacing,
                    old(self).line_spacing,
                );
                &&& (r.0 as int, r.1 as int, r.2 as int) == char_draw_result(layout, pos)
                &&& span_lo(pos.0, left_margin_x) - 383 * text.len() <= pos.0 + r.0 <= span_hi(pos.0, left_margin_x, alignment)
                    + 383 * text.len()
                &&& 0 <= r.1 <= 382 * text.len()
                &&& forall|tx: int, ty: int|
                    #[trigger] tracks(final(self).tiles_view(), tx, ty) <==> tracks(old(self).tiles_view(), tx, ty)
                        || glyphs_ink_tile(font, layout.4, overflow_cutoff(overflow, left_margin_x), tx, ty)
                &&& forall|px: int, py: int|
                    #[trigger] screen_px(final(self).tiles_view(), px, py) == char_drawn_px(
                        font,
                        old(self).tiles_view(),
                        layout.4,
                        overflow_cutoff(overflow, left_margin_x),
                        pos,
                        widened_clear(font, clear_size),
                        px,
                        py,
                    )
            }),
    {
        let wrap = match overflow {
            TextOverflow::Wrap(w, _) => Some(w),
            _ => None,
        };
        let cutoff_x = match overflow {
            TextOverflow::Cutoff(w) => Some(left_margin_x + w as i32),
            _ => None,
        };
        let r = stage_chars(
            text,
            font,
            &mut self.pool.staged,
            pos,
            wrap,
            cutoff_x,
            alignment,
            initial_line_w,
            left_margin_x,
            self.letter_spacing,
            self.line_spacing,
        );
        let clear = if clear_size.0 > 0 {
            (clear_size.0 + font.right_overhang() as i32, clear_size.1)
        } else {
            clear_size
        };
        let ghost t0 = self.pool.tiles@;
        clear_rect_in_tiles(&mut self.pool.tiles, pos, clear);
        let ghost t1 = self.pool.tiles@;
        proof {
            assert forall|i: int| #![trigger t1[i]] 0 <= i < t0.len() implies t1[i].0 == t0[i].0 && t1[i].1 == t0[i].1 by {}
            assert forall|x: int, y: int| #[trigger] screen_px(t1, x, y) == if in_rect(pos, clear, x, y) {
                0
            } else {
                screen_px(t0, x, y)
            } by {
                lemma_clear_screen(t0, t1, pos, clear, x, y);
            }
            lemma_clear_screen(t0, t1, pos, clear, 0, 0);
            if let Some((cx, cy, ci)) = self.pool.last_idx_cache {
                assert(tile_is_at(t0, ci as int, cx as int, cy as int));
                assert(t1[ci as int].0 == t0[ci as int].0 && t1[ci as int].1 == t0[ci as int].1);
            }
            assert forall|i: int| 0 <= i < t1.len() implies -0x0800_0000 <= #[trigger] t1[i].0 < 0x0800_0000 && -0x0800_0000
                <= t1[i].1 < 0x0800_0000 by {
                assert(t1[i].0 == t0[i].0 && t1[i].1 == t0[i].1);
            }
        }
        let ghost staged = self.pool.staged@;
        commit_staged(&mut self.pool.tiles, &mut self.pool.last_idx_cache, &self.pool.staged, palette_id);
        proof {
            let layout = char_draw_layout(
                font,
                text@,
                pos,
                overflow,
                alignment,
                initial_line_w,
                left_margin_x,
                self.letter_spacing,
                self.line_spacing,
            );
            let cutoff = overflow_cutoff(overflow, left_margin_x);
            assert forall|tx: int, ty: int| #[trigger] tracks(self.pool.tiles@, tx, ty) <==> tracks(t0, tx, ty)
                || glyphs_ink_tile(font, layout.4, cutoff, tx, ty) by {
                lemma_tracks_same(t0, t1, tx, ty);
                lemma_ink_transfer(font, staged, layout.4, cutoff, tx, ty);
            }
        }
        r
    }

    /// Clear only the exact pixels within the given rect. Only tiles already
    /// tracked by this renderer are modified
    pub fn clear_pixel_rect(&mut self, pos: (i32, i32), width: i32, height: i32)
        requires
            old(self).wf(),
            -0x4000_0000 <= pos.0 < 0x4000_0000,
            -0x4000_0000 <= pos.1 < 0x4000_0000,
            width < 0x4000_0000,
            height < 0x4000_0000,
        ensures
            final(self).wf(),
            final(self).palette_id == old(self).palette_id,
            final(self).letter_spacing == old(self).letter_spacing,
            final(self).line_spacing == old(self).line_spacing,
            tiles_kept(old(self).tiles_view(), final(self).tiles_view()),
            forall|x: int, y: int|
                #[trigger] screen_px(final(self).tiles_view(), x, y) == if in_rect(pos, (width, height), x, y) {
                    0
                } else {
                    screen_px(old(self).tiles_view(), x, y)
                },
    {
        let ghost t0 = self.pool.tiles@;
        clear_rect_in_tiles(&mut self.pool.tiles, pos, (width, height));
        let ghost t1 = self.pool.tiles@;
        proof {
            assert forall|i: int| #![trigger t1[i]] 0 <= i < t0.len() implies t1[i].0 == t0[i].0 && t1[i].1 == t0[i].1 by {}
            assert forall|x: int, y: int| #[trigger] screen_px(t1, x, y) == if in_rect(pos, (width, height), x, y) {
                0
            } else {
                screen_px(t0, x, y)
            } by {
                lemma_clear_screen(t0, t1, pos, (width, height), x, y);
            }
            lemma_clear_screen(t0, t1, pos, (width, height), 0, 0);
            if let Some((cx, cy, ci)) = self.pool.last_idx_cache {
                assert(tile_is_at(t0, ci as int, cx as int, cy as int));
                assert(t1[ci as int].0 == t0[ci as int].0 && t1[ci as int].1 == t0[ci as int].1);
            }
            assert forall|i: int| 0 <= i < t1.len() implies -0x0800_0000 <= #[trigger] t1[i].0 < 0x0800_0000 && -0x0800_0000
                <= t1[i].1 < 0x0800_0000 by {
                assert(t1[i].0 == t0[i].0 && t1[i].1 == t0[i].1);
            }
        }
    }
}

/// State of character-by-character drawing: cursor x and y, pixels used on
/// the current line, longest finished line, glyph placements so far.
pub type CharLayout = (int, int, int, int, Seq<(u8, int, int)>);

/// Width of the line of `t` that starts at byte `i`, as `measure_line`
/// gives it.
pub open spec fn line_width_from(m: GlyphMetrics, t: Seq<u8>, i: int, wrap: Option<u16>, spacing: int) -> int {
    let wrap32: Option<u32> = match wrap {
        Some(w) => Some(w as u32),
        None => None,
    };
    measure_spec(m, t.skip(i), wrap32, spacing).0
}

/// Character-by-character layout of `t` from byte `i` (see `char_layout`).
pub open spec fn char_layout_from(
    m: GlyphMetrics,
    t: Seq<u8>,
    i: int,
    st: CharLayout,
    wrap: Option<u16>,
    align: TextAlign,
    left_margin: int,
    spacing: int,
    adv: int,
) -> CharLayout
    decreases t.len() - i,
{
    if i < 0 || i >= t.len() {
        st
    } else {
        let (x, y, line_w, longest, ps) = st;
        let longer = if line_w > longest {
            line_w
        } else {
            longest
        };
        let c = t[i];
        let next = if c == NEWLINE {
            (
                left_margin + x_offset_spec(line_width_from(m, t, i + 1, wrap, spacing), align),
                y + adv,
                0,
                longer,
                ps,
            )
        } else {
            let cw = m.width(c);
            let gap = if line_w == 0 {
                0
            } else {
                advance_of(cw, spacing) - cw
            };
            let wrapped = wrap matches Some(wa) && line_w + gap + cw > wa;
            let (x0, y0, lw0, lg0, g0) = if wrapped {
                (left_margin + x_offset_spec(line_width_from(m, t, i, wrap, spacing), align), y + adv, 0, longer, 0)
            } else {
                (x, y, line_w, longest, gap)
            };
            (x0 + g0 + cw, y0, lw0 + g0 + cw, lg0, ps.push((c, x0 + g0, y0)))
        };
        char_layout_from(m, t, i + 1, next, wrap, align, left_margin, spacing, adv)
    }
}

/// Character-by-character layout of `t` drawn from `pos` with
/// `initial_line_w` pixels of the line already used: a line feed or a glyph
/// that would pass the wrap width starts a new line at `left_margin`, each
/// line offset by the alignment of its measured width.
pub open spec fn char_layout(
    m: GlyphMetrics,
    t: Seq<u8>,
    pos: (i32, i32),
    wrap: Option<u16>,
    align: TextAlign,
    initial_line_w: int,
    left_margin: int,
    spacing: int,
    adv: int,
) -> CharLayout {
    char_layout_from(
        m,
        t,
        0,
        (pos.0 + x_offset_spec(line_width_from(m, t, 0, wrap, spacing), align), pos.1 as int, initial_line_w, 0, Seq::empty()),
        wrap,
        align,
        left_margin,
        spacing,
        adv,
    )
}

/// The lower of the draw position and the left margin.
pub open spec fn span_lo(x: i32, left_margin: i32) -> int {
    if x < left_margin {
        x as int
    } else {
        left_margin as int
    }
}

/// The higher of the draw position and the left margin, plus the most a
/// line's alignment can shift it.
pub open spec fn span_hi(x: i32, left_margin: i32, align: TextAlign) -> int {
    (if x > left_margin {
        x as int
    } else {
        left_margin as int
    }) + if align is Left {
        0int
    } else {
        65535int
    }
}

/// Measured width of the line from byte `i` of `t`.
fn measure_from_index<T: AgbFont>(font: &T, text: &[u8], i: usize, wrap: Option<u16>, spacing: i8) -> (r: u32)
    requires
        font.metrics().covers_text(text@),
        text.len() <= MAX_DRAW_LEN,
        i <= text.len(),
    ensures
        r == line_width_from(font.metrics(), text@, i as int, wrap, spacing as int),
        r <= 382 * MAX_DRAW_LEN,
{
    proof {
        lemma_skip_covered(font.metrics(), text@, i as int);
        assert(text@.subrange(i as int, text.len() as int) =~= text@.skip(i as int));
    }
    let wrap32: Option<u32> = match wrap {
        Some(w) => Some(w as u32),
        None => None,
    };
    let (w, _) = font.measure_line(&text[i..text.len()], wrap32, spacing);
    w
}

/// Lays `text` out character by character (see `char_layout`) and stages
/// its glyphs on a blank set of tiles; glyphs whose left edge reaches
/// `cutoff_x` are skipped. Returns the cursor relative to `pos` and the
/// longest line's width.
pub fn stage_chars<T: AgbFont>(
    text: &[u8],
    font: &T,
    staged: &mut Vec<TileRows>,
    pos: (i32, i32),
    wrap: Option<u16>,
    cutoff_x: Option<i32>,
    align: TextAlign,
    initial_line_w: i32,
    left_margin_x: i32,
    spacing: i8,
    line_spacing: i8,
) -> (r: (i32, i32, i32))
    requires
        drawable(font),
        font.metrics().covers_text(text@),
        text.len() <= MAX_DRAW_LEN,
        -0x1000_0000 <= pos.0 < 0x1000_0000,
        -0x1000_0000 <= pos.1 < 0x1000_0000,
        -0x1000_0000 <= left_margin_x < 0x1000_0000,
        -0x1000_0000 <= initial_line_w < 0x1000_0000,
    ensures
        unique_tiles(final(staged)@),
        tiles_near(final(staged)@),
        ({
            let m = font.metrics();
            let adv = font_advance(font, line_spacing);
            let (x, y, line_w, longest, ps) = char_layout(
                m,
                text@,
                pos,
                wrap,
                align,
                initial_line_w as int,
                left_margin_x as int,
                spacing as int,
                adv,
            );
            &&& forall|px: int, py: int|
                #[trigger] screen_px(final(staged)@, px, py) == overlay_px(
                    font,
                    ps,
                    match cutoff_x {
                        Some(cx) => Some(cx as int),
                        None => None,
                    },
                    px,
                    py,
                )
            &&& r.0 == x - pos.0
            &&& r.1 == y - pos.1
            &&& r.2 == if line_w > longest {
                line_w
            } else {
                longest
            }
        }),
        span_lo(pos.0, left_margin_x) - 383 * text.len() <= pos.0 + r.0 <= span_hi(pos.0, left_margin_x, align) + 383
            * text.len(),
        0 <= r.1 <= 382 * text.len(),
{
    let ghost m = font.metrics();
    let ghost adv = font_advance(font, line_spacing);
    let ghost cutoff: Option<int> = match cutoff_x {
        Some(cx) => Some(cx as int),
        None => None,
    };
    staged.clear();
    let mut left_cache: Option<(i32, i32, usize)> = None;
    let mut right_cache: Option<(i32, i32, usize)> = None;
    let mut cursor_y = pos.1;
    let mut line_w: i32 = initial_line_w;
    let mut longest: i32 = 0;
    let first_w = measure_from_index(font, text, 0, wrap, spacing);
    let mut cursor_x = pos.0 + x_offset(first_w, align);
    let ghost mut ps: Seq<(u8, int, int)> = Seq::empty();
    let ghost goal = char_layout(m, text@, pos, wrap, align, initial_line_w as int, left_margin_x as int, spacing as int, adv);
    let mut i: usize = 0;
    while i < text.len()
        invariant
            0 <= i <= text.len(),
            drawable(font),
            m == font.metrics(),
            m.covers_text(text@),
            adv == font_advance(font, line_spacing),
            1 <= adv <= 382,
            text.len() <= MAX_DRAW_LEN,
            -0x1000_0000 <= pos.0 < 0x1000_0000,
            -0x1000_0000 <= pos.1 < 0x1000_0000,
            -0x1000_0000 <= left_margin_x < 0x1000_0000,
            cutoff == match cutoff_x {
                Some(cx) => Some(cx as int),
                None => None,
            },
            goal == char_layout_from(
                m,
                text@,
                i as int,
                (cursor_x as int, cursor_y as int, line_w as int, longest as int, ps),
                wrap,
                align,
                left_margin_x as int,
                spacing as int,
                adv,
            ),
            -0x1000_0000 - 383 * i <= cursor_x <= 0x1000_0000 + 65536 + 383 * i,
            span_lo(pos.0, left_margin_x) - 383 * i <= cursor_x <= span_hi(pos.0, left_margin_x, align) + 383 * i,
            pos.1 <= cursor_y <= pos.1 + 382 * i,
            -0x1000_0000 - 383 * i <= line_w <= 0x1000_0000 + 383 * i,
            0 <= longest <= 0x1000_0000 + 383 * i,
            unique_tiles(staged@),
            tiles_near(staged@),
            cache_ok(staged@, left_cache),
            cache_ok(staged@, right_cache),
            forall|px: int, py: int| #[trigger] screen_px(staged@, px, py) == overlay_px(font, ps, cutoff, px, py),
        decreases text.len() - i,
    {
        let c = text[i];
        let longer = if line_w > longest { line_w } else { longest };
        if c == NEWLINE {
            longest = longer;
            cursor_y = cursor_y + font.line_advance(line_spacing) as i32;
            line_w = 0;
            let next_w = measure_from_index(font, text, i + 1, wrap, spacing);
            cursor_x = left_margin_x + x_offset(next_w, align);
        } else {
            proof {
                assert(m.covers(text@[i as int]));
            }
            let char_w = font.char_width(c) as i32;
            let mut gap: i32 = if line_w == 0 { 0 } else { font.letter_gap(c, spacing) };
            let wrapped = match wrap {
                Some(wa) => line_w + gap + char_w > wa as i32,
                None => false,
            };
            if wrapped {
                longest = longer;
                cursor_y = cursor_y + font.line_advance(line_spacing) as i32;
                line_w = 0;
                gap = 0;
                let next_w = measure_from_index(font, text, i, wrap, spacing);
                cursor_x = left_margin_x + x_offset(next_w, align);
            }
            cursor_x = cursor_x + gap;
            let ghost p = (c, cursor_x as int, cursor_y as int);
            let draw = match cutoff_x {
                Some(cx) => cursor_x < cx,
                None => true,
            };
            if draw {
                proof {
                    lemma_glyph_in_data(font, c);
                }
                let g = font.glyph(c);
                proof {
                    let k = c - m.offset;
                    let gs = font.glyph_size_view() as int;
                    assert((k + 1) * gs - k * gs == gs) by (nonlinear_arith);
                }
                let ghost s0 = staged@;
                blit_glyph_staged(g, font, staged, cursor_x, cursor_y, &mut left_cache, &mut right_cache);
                proof {
                    assert forall|px: int, py: int| #[trigger] screen_px(staged@, px, py) == overlay_px(font, ps.push(p), cutoff, px, py) by {
                        lemma_overlay_push(font, ps, p, cutoff, px, py);
                        assert(screen_px(s0, px, py) == overlay_px(font, ps, cutoff, px, py));
                    }
                }
            } else {
                proof {
                    assert forall|px: int, py: int| #[trigger] screen_px(staged@, px, py) == overlay_px(font, ps.push(p), cutoff, px, py) by {
                        lemma_overlay_push(font, ps, p, cutoff, px, py);
                    }
                }
            }
            proof {
                ps = ps.push(p);
            }
            cursor_x = cursor_x + char_w;
            line_w = line_w + gap + char_w;
        }
        i = i + 1;
    }
    if line_w > longest {
        longest = line_w;
    }
    (cursor_x - pos.0, cursor_y - pos.1, longest)
}

} // verus!

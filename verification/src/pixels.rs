use vstd::prelude::*;

verus! {

/// Palette index of pixel `k` (0..8) of a packed 4bpp word: pixel 0 sits in
/// the lowest nibble.
pub open spec fn nib(w: u32, k: u32) -> u32 {
    (w >> (4 * k)) & 0xF
}

/// Setting a pixel that was 0 by OR-ing its value in changes only that pixel.
pub proof fn lemma_or_into_empty_nibble(w: u32, k: u32, v: u32, j: u32)
    requires
        k < 8,
        j < 8,
        v < 16,
        nib(w, k) == 0,
    ensures
        nib(w | (v << (4 * k)), j) == if j == k {
            v
        } else {
            nib(w, j)
        },
{
    assert(nib(w | (v << (4 * k)), j) == if j == k {
        v
    } else {
        nib(w, j)
    }) by (bit_vector)
        requires
            k < 8,
            j < 8,
            v < 16,
            (w >> (4 * k)) & 0xF == 0,
    ;
}

/// A word is zero exactly when all eight of its pixels are.
pub proof fn lemma_zero_word(w: u32)
    ensures
        (w == 0) <==> (forall|j: u32| j < 8 ==> #[trigger] nib(w, j) == 0),
{
    assert(nib(0u32, 0) == 0) by (bit_vector);
    assert forall|j: u32| j < 8 implies #[trigger] nib(0u32, j) == 0 by {
        assert((0u32 >> (4 * j)) & 0xF == 0) by (bit_vector);
    }
    if w != 0 {
        let n0 = nib(w, 0);
        let n1 = nib(w, 1);
        let n2 = nib(w, 2);
        let n3 = nib(w, 3);
        let n4 = nib(w, 4);
        let n5 = nib(w, 5);
        let n6 = nib(w, 6);
        let n7 = nib(w, 7);
        assert(w != 0 ==> (w >> 0) & 0xF != 0 || (w >> 4) & 0xF != 0 || (w >> 8) & 0xF != 0 || (w >> 12)
            & 0xF != 0 || (w >> 16) & 0xF != 0 || (w >> 20) & 0xF != 0 || (w >> 24) & 0xF != 0 || (w
            >> 28) & 0xF != 0) by (bit_vector);
    }
}

/// Blit one packed row `src` over `target`: every non-zero (inked) pixel of
/// `src` replaces the pixel under it, transparent pixels keep the target's
pub fn blit_pixel_row_arm(target: &mut u32, src: u32)
    ensures
        forall|k: u32|
            k < 8 ==> #[trigger] nib(*final(target), k) == if nib(src, k) != 0 {
                nib(src, k)
            } else {
                nib(*old(target), k)
            },
{
    if src == 0 {
        proof {
            lemma_zero_word(src);
        }
        return ;
    }
    let hi = src & 0x8888_8888;
    let lo = src & 0x7777_7777;
    proof {
        assert(lo <= 0x7777_7777) by (bit_vector)
            requires
                lo == src & 0x7777_7777,
        ;
    }
    let set_nybbles = (hi | ((lo + 0x7777_7777) & 0x8888_8888)) >> 3;
    proof {
        assert(set_nybbles <= 0x1111_1111) by (bit_vector)
            requires
                set_nybbles == (hi | ((lo + 0x7777_7777u32) as u32 & 0x8888_8888)) >> 3,
                hi == src & 0x8888_8888,
                lo == src & 0x7777_7777,
        ;
    }
    let mask = set_nybbles * 0xF;
    let old_t = *target;
    *target = (*target & !mask) | src;
    proof {
        assert forall|k: u32| k < 8 implies #[trigger] nib(*target, k) == if nib(src, k) != 0 {
            nib(src, k)
        } else {
            nib(old_t, k)
        } by {
            let t = *target;
            assert(((t >> (4 * k)) & 0xF) == if ((src >> (4 * k)) & 0xF) != 0 {
                (src >> (4 * k)) & 0xF
            } else {
                (old_t >> (4 * k)) & 0xF
            }) by (bit_vector)
                requires
                    k < 8,
                    hi == src & 0x8888_8888,
                    lo == src & 0x7777_7777,
                    set_nybbles == (hi | ((lo + 0x7777_7777u32) as u32 & 0x8888_8888)) >> 3,
                    mask == set_nybbles * 0xF,
                    t == (old_t & !mask) | src,
            ;
        }
    }
}

} // verus!

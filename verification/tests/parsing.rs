use gba_agb_font::parsing::{apply_recolour, apply_style};

fn buf(cell_width: usize, cell_height: usize) -> Vec<u32> {
    vec![0u32; ((cell_width + 7) >> 3) * cell_height]
}

fn set_px(data: &mut [u32], cell_width: usize, x: usize, y: usize, idx: u8) {
    let row_u32s = (cell_width + 7) >> 3;
    data[y * row_u32s + (x >> 3)] |= (idx as u32) << ((x & 7) * 4);
}

fn get_px(data: &[u32], cell_width: usize, x: usize, y: usize) -> u8 {
    let row_u32s = (cell_width + 7) >> 3;
    ((data[y * row_u32s + (x >> 3)] >> ((x & 7) * 4)) & 0xF) as u8
}

#[test]
fn zero_style_is_a_no_op() {
    let mut data = buf(8, 6);
    set_px(&mut data, 8, 3, 1, 0x7);
    let before = data.clone();
    apply_style(&mut data, 8, 6, 1, 0, 0);
    assert_eq!(data, before);
}

#[test]
fn bands_shift_top_double_mid_single_bottom_absorbs_remainder() {
    for h in [6usize, 7, 8] {
        let third = h / 3;
        let mut data = buf(8, h);
        for y in 0..h {
            set_px(&mut data, 8, 0, y, 0xF);
        }
        apply_style(&mut data, 8, h as u8, 1, 1, 0);
        for y in 0..h {
            let expected_x = if y < third {
                2
            } else if y < 2 * third {
                1
            } else {
                // h=8 pins the remainder rule: row 4 belongs to the bottom band
                // (2*third = 4), not the middle one (2*h/3 would be 5)
                0
            };
            for x in 0..8 {
                let expected = if x == expected_x { 0xF } else { 0 };
                assert_eq!(get_px(&data, 8, x, y), expected, "h={h} y={y} x={x}");
            }
        }
    }
}

#[test]
fn bold_takes_max_not_or() {
    let mut data = buf(8, 3);
    // Bottom band (h=3 -> row 2) so the italic shift stays out of the way
    set_px(&mut data, 8, 2, 2, 0x9);
    set_px(&mut data, 8, 3, 2, 0x6);
    apply_style(&mut data, 8, 3, 1, 0, 1);
    assert_eq!(get_px(&data, 8, 2, 2), 0x9);
    assert_eq!(get_px(&data, 8, 3, 2), 0x9, "an OR would fabricate 0xF");
    assert_eq!(get_px(&data, 8, 4, 2), 0x6);
    assert_eq!(get_px(&data, 8, 5, 2), 0);
}

#[test]
fn ink_pushed_past_the_cell_edge_clips() {
    let mut data = buf(8, 6);
    set_px(&mut data, 8, 7, 0, 0xF);
    apply_style(&mut data, 8, 6, 1, 1, 0);
    for x in 0..8 {
        assert_eq!(get_px(&data, 8, x, 0), 0, "x={x}");
    }
}

#[test]
fn shift_crosses_a_u32_boundary() {
    let mut data = buf(16, 6);
    set_px(&mut data, 16, 7, 0, 0xA);
    apply_style(&mut data, 16, 6, 1, 4, 0);
    assert_eq!(get_px(&data, 16, 15, 0), 0xA);
    assert_eq!(get_px(&data, 16, 7, 0), 0);
}

fn identity_table() -> [u8; 16] {
    core::array::from_fn(|i| i as u8)
}

#[test]
fn recolour_swaps_bands_simultaneously() {
    let mut data = buf(8, 1);
    set_px(&mut data, 8, 0, 0, 0xF);
    set_px(&mut data, 8, 1, 0, 0xE);
    set_px(&mut data, 8, 2, 0, 0x7);
    let mut table = identity_table();
    table[0xF] = 0xE;
    table[0xE] = 0xF;
    apply_recolour(&mut data, &table);
    assert_eq!(get_px(&data, 8, 0, 0), 0xE, "swapped, not chained");
    assert_eq!(get_px(&data, 8, 1, 0), 0xF);
    assert_eq!(get_px(&data, 8, 2, 0), 0x7, "unmapped band passes through");
}

#[test]
fn recolour_to_zero_clears_pixels() {
    let mut data = buf(8, 1);
    set_px(&mut data, 8, 3, 0, 0xF);
    let mut table = identity_table();
    table[0xF] = 0;
    apply_recolour(&mut data, &table);
    assert_eq!(data, buf(8, 1));
}

#[test]
fn identity_recolour_is_a_no_op() {
    let mut data = buf(8, 2);
    set_px(&mut data, 8, 4, 1, 0x9);
    let before = data.clone();
    apply_recolour(&mut data, &identity_table());
    assert_eq!(data, before);
}

#[test]
fn glyphs_transform_independently() {
    let mut data = buf(8, 6);
    data.extend_from_slice(&buf(8, 6));
    set_px(&mut data[6..], 8, 0, 0, 0xF);
    apply_style(&mut data, 8, 6, 2, 1, 0);
    assert!(data[..6].iter().all(|&w| w == 0), "glyph 0 stays empty");
    assert_eq!(get_px(&data[6..], 8, 2, 0), 0xF);
}

use gba_agb_font::create::{create_bytes, recolor_table, CreateError, SheetGrid};
use gba_agb_font::parsing::{extract_glyph_data, names_aseprite, open_image, pixel_to_index, sheet_from_rgba, SheetImage};

const WHITE: [u8; 4] = [255, 255, 255, 255];

/// A blank sheet of `cols` x `rows` cells of `cw` x `ch` pixels.
fn sheet(cols: u32, rows: u32, cw: u32, ch: u32) -> SheetImage {
    let width = cols * cw;
    let height = rows * ch;
    SheetImage { width, height, rgba: vec![0u8; (width * height * 4) as usize] }
}

fn paint(img: &mut SheetImage, x: u32, y: u32, px: [u8; 4]) {
    let at = ((y * img.width + x) * 4) as usize;
    img.rgba[at..at + 4].copy_from_slice(&px);
}

/// Paints pixel `(x, y)` of the cell of glyph `g` on a 16-column sheet.
fn paint_glyph(img: &mut SheetImage, cw: u32, ch: u32, g: u32, x: u32, y: u32, px: [u8; 4]) {
    paint(img, (g % 16) * cw + x, (g / 16) * ch + y, px);
}

fn le_word(bytes: &[u8], at: usize) -> u32 {
    u32::from_le_bytes([bytes[at], bytes[at + 1], bytes[at + 2], bytes[at + 3]])
}

/// A 16x6 sheet of 4x2 cells with 'A' (glyph 33) inked at column 2 of row 0.
fn small_sheet() -> SheetImage {
    let mut img = sheet(16, 6, 4, 2);
    paint_glyph(&mut img, 4, 2, 33, 2, 0, WHITE);
    img
}

#[test]
fn small_sheet_packs_header_widths_and_pixels() {
    let img = small_sheet();
    let bytes = create_bytes(16, 6, &img, None, &[], 0, &[]).unwrap();
    assert_eq!(bytes.len(), 100 + 95 * 2 * 4);
    assert_eq!(&bytes[0..3], &[0, 4, 2]);
    // An empty glyph advances one pixel; 'A' is as wide as its rightmost ink
    assert_eq!(bytes[3 + 33], 3);
    assert_eq!(bytes[3], 1);
    assert_eq!(bytes[3 + 94], 1);
    // No bold: no overhang, then the small header's padding byte
    assert_eq!(bytes[98], 0);
    assert_eq!(bytes[99], 0);
    // Glyph 33, row 0: pixel 2 is band 15
    assert_eq!(le_word(&bytes, 100 + 4 * (33 * 2)), 0xF00);
    assert_eq!(le_word(&bytes, 100 + 4 * (33 * 2 + 1)), 0);
}

#[test]
fn full_grid_packs_a_full_font() {
    let mut img = sheet(16, 16, 4, 1);
    paint_glyph(&mut img, 4, 1, 0xE9, 0, 0, WHITE);
    let bytes = create_bytes(16, 16, &img, None, &[], 0, &[]).unwrap();
    assert_eq!(&bytes[0..3], &[1, 4, 1]);
    assert_eq!(bytes.len(), 260 + 256 * 4);
    assert_eq!(bytes[3 + 0xE9], 1);
    assert_eq!(bytes[259], 0);
    assert_eq!(le_word(&bytes, 260 + 4 * 0xE9), 0xF);
}

#[test]
fn bare_monospace_gives_every_glyph_the_widest_advance() {
    let bytes = create_bytes(16, 6, &small_sheet(), Some(None), &[], 0, &[]).unwrap();
    assert!(bytes[3..98].iter().all(|&w| w == 3));
}

#[test]
fn width_overrides_win_over_monospace() {
    let bytes = create_bytes(16, 6, &small_sheet(), Some(Some(5)), &[(b'A', 2), (b' ', 4)], 0, &[]).unwrap();
    assert_eq!(bytes[3 + 33], 2);
    assert_eq!(bytes[3], 4);
    assert_eq!(bytes[3 + 1], 5);
}

#[test]
fn bold_widens_the_cell_and_keeps_roman_widths() {
    let bytes = create_bytes(16, 6, &small_sheet(), None, &[], 1, &[]).unwrap();
    assert_eq!(bytes[1], 5, "cell widened by the bold strength");
    assert_eq!(bytes[3 + 33], 3, "advance measured before styling");
    assert_eq!(bytes[98], 1, "overhang stores the bold strength");
    // The ink smears one pixel to the right: pixels 2 and 3
    assert_eq!(le_word(&bytes, 100 + 4 * (33 * 2)), 0xFF00);
}

#[test]
fn recolor_maps_bands_simultaneously() {
    let mut img = sheet(16, 6, 4, 2);
    paint_glyph(&mut img, 4, 2, 33, 0, 0, WHITE);
    // luma 230 -> band 14
    paint_glyph(&mut img, 4, 2, 33, 1, 0, [230, 230, 230, 255]);
    let bytes = create_bytes(16, 6, &img, None, &[], 0, &[(15, 14), (14, 15)]).unwrap();
    assert_eq!(le_word(&bytes, 100 + 4 * (33 * 2)), 0xFE);
}

#[test]
fn recolor_table_maps_named_bands_only() {
    let t = recolor_table(&[(15, 13)]).unwrap();
    assert_eq!(t[15], 13);
    assert_eq!(t[14], 14);
    assert_eq!(t[0], 0);
    assert_eq!(recolor_table(&[(0, 3)]), Err(CreateError::RecolorBackground));
    assert_eq!(recolor_table(&[(3, 16)]), Err(CreateError::RecolorBandOutOfRange));
}

#[test]
fn each_refused_request_names_its_reason() {
    let img = small_sheet();
    assert_eq!(create_bytes(16, 6, &img, None, &[], 0, &[(0, 1)]), Err(CreateError::RecolorBackground));
    assert_eq!(create_bytes(16, 6, &img, None, &[], 0, &[(20, 1)]), Err(CreateError::RecolorBandOutOfRange));
    assert_eq!(create_bytes(0, 6, &img, None, &[], 0, &[]), Err(CreateError::EmptyGrid));
    assert_eq!(create_bytes(7, 6, &img, None, &[], 0, &[]), Err(CreateError::WidthNotDivisible));
    assert_eq!(create_bytes(16, 5, &img, None, &[], 0, &[]), Err(CreateError::HeightNotDivisible));
    assert_eq!(create_bytes(4, 2, &img, None, &[], 0, &[]), Err(CreateError::TooFewCells));
    assert_eq!(create_bytes(16, 6, &sheet(16, 6, 4, 2), None, &[], 0, &[]), Err(CreateError::AllGlyphsEmpty));
    assert_eq!(create_bytes(16, 6, &img, None, &[(200, 1)], 0, &[]), Err(CreateError::OverrideOutOfRange));
    assert_eq!(create_bytes(16, 6, &img, None, &[], 252, &[]), Err(CreateError::BoldTooWide));
    let empty = SheetImage { width: 0, height: 6, rgba: Vec::new() };
    assert_eq!(create_bytes(16, 6, &empty, None, &[], 0, &[]), Err(CreateError::NoPixelsPerCell));
    let wide = sheet(16, 6, 256, 1);
    assert_eq!(create_bytes(16, 6, &wide, None, &[], 0, &[]), Err(CreateError::CellTooLarge));
}

#[test]
fn grid_resolves_cell_size_and_mode() {
    let g = SheetGrid::resolve(&small_sheet(), 16, 6).unwrap();
    assert_eq!((g.cell_width, g.cell_height, g.glyph_count, g.mode_byte), (4, 2, 95, 0));
    let g = SheetGrid::resolve(&sheet(16, 16, 2, 2), 16, 16).unwrap();
    assert_eq!((g.glyph_count, g.mode_byte), (256, 1));
}

#[test]
fn pixels_convert_to_luma_bands() {
    assert_eq!(pixel_to_index([255, 255, 255, 255]), 15);
    assert_eq!(pixel_to_index([0, 0, 0, 255]), 0);
    assert_eq!(pixel_to_index([255, 255, 255, 100]), 0, "below half alpha is transparent");
    assert_eq!(pixel_to_index([128, 128, 128, 255]), 8);
    assert_eq!(pixel_to_index([10, 10, 10, 255]), 0, "near-black converts to the transparent index");
}

#[test]
fn glyph_data_is_packed_row_by_row() {
    let mut img = sheet(16, 6, 10, 1);
    paint_glyph(&mut img, 10, 1, 1, 9, 0, WHITE);
    let data = extract_glyph_data(&img, 10, 1, 16, 95);
    assert_eq!(data.len(), 95 * 2);
    assert_eq!(data[2], 0);
    assert_eq!(data[3], 0xF0, "column 9 is pixel 1 of the second word");
}

#[test]
fn png_sheets_decode_through_the_image_crate() {
    let mut png = Vec::new();
    {
        let mut rgba = image::RgbaImage::new(2, 1);
        rgba.put_pixel(1, 0, image::Rgba([255, 255, 255, 255]));
        image::DynamicImage::ImageRgba8(rgba)
            .write_to(&mut std::io::Cursor::new(&mut png), image::ImageFormat::Png)
            .unwrap();
    }
    let img = open_image(&png, "png").unwrap();
    assert_eq!((img.width, img.height), (2, 1));
    assert_eq!(img.rgba, vec![0, 0, 0, 0, 255, 255, 255, 255]);
    assert!(open_image(b"not an image", "png").is_none());
    assert!(open_image(&png, "PNG").is_some());
    assert!(open_image(&png, "bmp").is_none());
    assert!(open_image(&png, "").is_none());
}

#[test]
fn raw_pixels_must_fill_the_sheet() {
    let img = sheet_from_rgba(2, 1, vec![1, 2, 3, 4, 5, 6, 7, 8]).unwrap();
    assert_eq!((img.width, img.height, img.rgba.len()), (2, 1, 8));
    assert!(sheet_from_rgba(2, 2, vec![0; 8]).is_none());
    assert!(names_aseprite(b"ASE") && names_aseprite(b"Aseprite"));
    assert!(!names_aseprite(b"png") && !names_aseprite(b"asep"));
}

use gba_agb_font::common::{check_sheet_fits, create_bytes};
use gba_agb_font::edit::{
    apply_width_edits, char_display, code_point_to_index, index_to_code_point, parse_char_arg, width_key, width_of,
    widths_header, CharArgError, FontFileError,
};
use gba_agb_font::parsing::SheetImage;
use gba_agb_font::update::{pixels_header, update_pixel_data, UpdateError};

fn small_font(cell_width: u8, cell_height: u8) -> Vec<u8> {
    let ru = (cell_width as usize + 7) / 8;
    let mut bytes = vec![0u8; 100 + 95 * ru * cell_height as usize * 4];
    bytes[1] = cell_width;
    bytes[2] = cell_height;
    for i in 0..95 {
        bytes[3 + i] = (i % 7) as u8 + 1;
    }
    bytes
}

fn sheet(width: u32, height: u32) -> SheetImage {
    SheetImage { width, height, rgba: vec![0u8; (width * height * 4) as usize] }
}

fn paint(img: &mut SheetImage, x: u32, y: u32) {
    let at = ((y * img.width + x) * 4) as usize;
    img.rgba[at..at + 4].copy_from_slice(&[255, 255, 255, 255]);
}

#[test]
fn code_points_display_as_quoted_characters_or_hex() {
    assert_eq!(char_display(b'A'), "'A'");
    assert_eq!(char_display(b' '), "' '");
    assert_eq!(char_display(127), "0x7f");
    assert_eq!(char_display(0x0a), "0x0a");
    assert_eq!(width_key(b'\''), "'\\''");
    assert_eq!(width_key(b'\\'), "'\\\\'");
    assert_eq!(width_key(b'~'), "'~'");
    assert_eq!(width_key(0xff), "0xff");
}

#[test]
fn glyph_indices_and_code_points_round_trip() {
    assert_eq!(index_to_code_point(0, 0), 32);
    assert_eq!(index_to_code_point(94, 0), 126);
    assert_eq!(index_to_code_point(200, 1), 200);
    assert_eq!(code_point_to_index(b'A', 0), Ok(33));
    assert_eq!(code_point_to_index(200, 1), Ok(200));
    for idx in 0..95usize {
        assert_eq!(code_point_to_index(index_to_code_point(idx, 0), 0), Ok(idx));
    }
    assert_eq!(
        code_point_to_index(10, 0),
        Err(String::from("code point 10 is outside the small font range (32–126)"))
    );
}

#[test]
fn headers_of_unreadable_files_are_refused() {
    assert_eq!(widths_header(&[0, 4]), Err(FontFileError::TooShort));
    assert_eq!(widths_header(&[2, 4, 4]), Err(FontFileError::UnknownMode(2)));
    assert_eq!(widths_header(&[1, 4, 4, 0]), Err(FontFileError::TooShortFor(259)));
    let h = widths_header(&small_font(4, 2)).unwrap();
    assert_eq!((h.mode_byte, h.cell_width, h.cell_height, h.glyph_count), (0, 4, 2, 95));
}

#[test]
fn widths_are_read_and_edited_in_place() {
    let mut bytes = small_font(8, 8);
    let h = widths_header(&bytes).unwrap();
    assert_eq!(width_of(&bytes, h, b'A'), Ok(34 % 7));
    assert!(width_of(&bytes, h, 5).is_err());
    let before = bytes.clone();
    let outcomes = apply_width_edits(&mut bytes, h, &[(b'A', 5), (3, 4), (b'A', 6)]);
    assert_eq!(outcomes[0], Ok(34 % 7));
    assert!(outcomes[1].is_err());
    assert_eq!(outcomes[2], Ok(5), "the second edit sees the first");
    assert_eq!(bytes[3 + 33], 6);
    assert_eq!(width_of(&bytes, h, b'A'), Ok(6), "the last edit is read back");
    assert_eq!(bytes.len(), before.len());
    for i in 0..bytes.len() {
        if i != 3 + 33 {
            assert_eq!(bytes[i], before[i]);
        }
    }
}

#[test]
fn pixel_data_is_replaced_and_widths_kept() {
    let mut bytes = small_font(4, 2);
    let widths = bytes[0..100].to_vec();
    let mut img = sheet(64, 12);
    // glyph 1 ('!'): cell (1, 0), pixel (3, 1)
    paint(&mut img, 4 + 3, 1);
    let resized = update_pixel_data(&mut bytes, &img).unwrap();
    assert!(!resized);
    assert_eq!(&bytes[0..100], &widths[..]);
    let at = 100 + 4 * (1 * 2 + 1);
    assert_eq!(u32::from_le_bytes([bytes[at], bytes[at + 1], bytes[at + 2], bytes[at + 3]]), 0xF000);
}

#[test]
fn pixel_data_is_resized_to_the_sheet() {
    let mut bytes = small_font(4, 2);
    bytes.truncate(150);
    assert_eq!(update_pixel_data(&mut bytes, &sheet(64, 12)), Ok(true));
    assert_eq!(bytes.len(), 100 + 95 * 2 * 4);
}

#[test]
fn refused_updates_leave_the_file_alone() {
    let mut bytes = small_font(4, 2);
    let before = bytes.clone();
    assert_eq!(update_pixel_data(&mut bytes, &sheet(64, 32)), Err(UpdateError::ModeMismatch(1)));
    assert_eq!(update_pixel_data(&mut bytes, &sheet(32, 12)), Err(UpdateError::SheetTooSmall));
    assert_eq!(bytes, before);
    let mut short = vec![0u8, 4];
    assert_eq!(update_pixel_data(&mut short, &sheet(64, 12)), Err(UpdateError::File(FontFileError::TooShort)));
    let mut flat = small_font(4, 0);
    assert_eq!(update_pixel_data(&mut flat, &sheet(64, 12)), Err(UpdateError::ZeroCellHeight));
    let mut odd = small_font(4, 2);
    odd[0] = 3;
    assert_eq!(update_pixel_data(&mut odd, &sheet(64, 12)), Err(UpdateError::File(FontFileError::UnknownMode(3))));
}

#[test]
fn fixed_cell_sheets_pack_without_styling() {
    let mut img = sheet(64, 12);
    paint(&mut img, 4 + 3, 1);
    assert!(check_sheet_fits(&img, 4, 2));
    assert!(!check_sheet_fits(&img, 5, 2));
    let bytes = create_bytes(4, 2, &img, None, &[(b'!', 2), (3, 9)]);
    assert_eq!(&bytes[0..3], &[0, 4, 2]);
    assert_eq!(bytes[3 + 1], 2, "override applies");
    assert_eq!(bytes[3], 1, "empty glyphs advance one pixel");
    assert_eq!(bytes.len(), 100 + 95 * 2 * 4);
}

#[test]
fn character_arguments_name_code_points() {
    assert_eq!(parse_char_arg("A"), Ok(65));
    assert_eq!(parse_char_arg("5"), Ok(b'5'));
    assert_eq!(parse_char_arg("65"), Ok(65));
    assert_eq!(parse_char_arg("0x41"), Ok(65));
    assert_eq!(parse_char_arg("0XfF"), Ok(255));
    assert_eq!(parse_char_arg(""), Err(CharArgError::Empty));
    assert_eq!(parse_char_arg("0x"), Err(CharArgError::Invalid));
    assert_eq!(parse_char_arg("AB"), Err(CharArgError::Invalid));
    assert_eq!(parse_char_arg("0x1G"), Err(CharArgError::Invalid));
    assert_eq!(parse_char_arg("256"), Err(CharArgError::TooLarge));
    assert_eq!(parse_char_arg("0x100"), Err(CharArgError::TooLarge));
    assert_eq!(parse_char_arg("99999999999999"), Err(CharArgError::TooLarge));
}

#[test]
fn pixel_headers_need_everything_before_the_pixels() {
    let mut small = vec![0u8, 4, 8];
    small.resize(99, 0);
    assert!(matches!(pixels_header(&small), Err(FontFileError::TooShortFor(100))));
    small.push(0);
    let h = pixels_header(&small).unwrap();
    assert_eq!((h.mode_byte, h.cell_width, h.cell_height, h.glyph_count), (0, 4, 8, 95));
    assert!(matches!(pixels_header(&[2, 4, 8]), Err(FontFileError::UnknownMode(2))));
    assert!(matches!(pixels_header(&[0, 4]), Err(FontFileError::TooShort)));
}

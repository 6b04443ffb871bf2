use gba_agb_font::font::AgbFont;
use gba_agb_font::full::FullFont;
use gba_agb_font::printable::PrintableFont;

/// Minimal valid small-font blob: 4x1 cells, so one u32 of pixel data per glyph
fn printable_blob(right_overhang: u8) -> Vec<u8> {
    let mut bytes = vec![0u8; 100 + 95 * 4];
    bytes[0] = 0;
    bytes[1] = 4;
    bytes[2] = 1;
    for i in 0..95 {
        bytes[3 + i] = 2;
    }
    bytes[98] = right_overhang;
    bytes
}

/// Minimal valid full-font blob: 4x1 cells
fn full_blob(right_overhang: u8) -> Vec<u8> {
    let mut bytes = vec![0u8; 260 + 256 * 4];
    bytes[0] = 1;
    bytes[1] = 4;
    bytes[2] = 1;
    for i in 0..256 {
        bytes[3 + i] = 2;
    }
    bytes[259] = right_overhang;
    bytes
}

#[test]
fn printable_font_reads_the_overhang_byte() {
    let font = PrintableFont::from_static_bytes(&printable_blob(5));
    assert_eq!(font.right_overhang(), 5);
    assert_eq!(font.char_width(b'A'), 2, "overhang must not affect widths");
}

#[test]
fn zero_padding_parses_as_no_overhang() {
    let font = PrintableFont::from_static_bytes(&printable_blob(0));
    assert_eq!(font.right_overhang(), 0);
}

#[test]
fn full_font_reads_the_overhang_byte() {
    let font = FullFont::from_static_bytes(&full_blob(7));
    assert_eq!(font.right_overhang(), 7);
    assert_eq!(font.char_width(0xE9), 2);
}

use gba_agb_font::arg_tokens::{tokenize, ArgsError, Expect, TokKind};
use gba_agb_font::font_decl::{debug_report, declared_font_bytes, expand_declaration, width_entry};
use gba_agb_font::macro_args::{parse_args, FontArgs, Visibility};
use gba_agb_font::parsing::SheetImage;

fn parse(s: &str) -> Result<FontArgs, ArgsError> {
    parse_args(s.as_bytes())
}

fn err(s: &str) -> ArgsError {
    match parse(s) {
        Ok(_) => panic!("`{s}` should be refused"),
        Err(e) => e,
    }
}

#[test]
fn name_and_path_alone_give_a_small_sheet() {
    let a = parse("FONT, \"font.png\"").unwrap();
    assert_eq!(a.vis, Visibility::Inherited);
    assert_eq!(a.name, (0, 4));
    assert_eq!(a.path, b"font.png".to_vec());
    assert_eq!(a.grid, None);
    assert_eq!(a.grid(), (16, 6));
    assert_eq!(a.monospace, None);
    assert!(a.width_overrides.is_empty());
    assert_eq!(a.bold, 0);
    assert!(a.recolor.is_empty());
    assert!(!a.debug);
}

#[test]
fn visibilities_parse() {
    assert_eq!(parse("pub FONT, \"f.png\"").unwrap().vis, Visibility::Public);
    assert_eq!(parse("pub(crate) FONT, \"f.png\"").unwrap().vis, Visibility::Crate);
    assert_eq!(parse("pub(self) FONT, \"f.png\"").unwrap().vis, Visibility::SelfOnly);
    assert_eq!(parse("pub(super) FONT, \"f.png\"").unwrap().vis, Visibility::Super);
    let src = "pub(in crate::fonts) FONT, \"f.png\"";
    let a = parse(src).unwrap();
    assert_eq!(a.vis, Visibility::InPath(7, 19));
    assert_eq!(&src[7..19], "crate::fonts");
    assert_eq!(a.name, (21, 25));
}

#[test]
fn grid_arguments() {
    assert_eq!(parse("pub FONT, \"font.png\", full").unwrap().grid(), (16, 16));
    assert_eq!(parse("pub(crate) FONT, \"font.png\", size(16, 6)").unwrap().grid, Some((16, 6)));
    assert_eq!(parse("FONT, \"f.png\", size(8, 32)").unwrap().grid(), (8, 32));
}

#[test]
fn spelled_out_default_grid_is_the_default() {
    let plain = parse("FONT, \"f.png\"").unwrap();
    let spelled = parse("FONT, \"f.png\", size(16, 6)").unwrap();
    assert_eq!(plain.grid(), spelled.grid());
}

#[test]
fn monospace_widths_bold_recolor_and_debug() {
    let a = parse("pub FONT, \"font.png\", monospace").unwrap();
    assert_eq!(a.monospace, Some(None));
    let a = parse("pub FONT, \"font.png\", full, monospace = 8").unwrap();
    assert_eq!(a.monospace, Some(Some(8)));
    let a = parse("pub FONT, \"font.png\", widths = { 'A' = 5, ' ' = 3, 65 = 4 }").unwrap();
    assert_eq!(a.width_overrides, vec![(65, 5), (32, 3), (65, 4)]);
    let a = parse("pub FONT, \"font.png\", monospace = 8, widths = { 'A' = 5 }").unwrap();
    assert_eq!((a.monospace, a.width_overrides), (Some(Some(8)), vec![(65, 5)]));
    assert_eq!(parse("pub FONT, \"font.png\", bold").unwrap().bold, 1);
    assert_eq!(parse("pub FONT, \"font.png\", bold = 2").unwrap().bold, 2);
    let a = parse("pub FONT, \"font.png\", recolor = { 15 = 14, 14 = 15 }").unwrap();
    assert_eq!(a.recolor, vec![(15, 14), (14, 15)]);
    assert!(parse("pub FONT, \"font.png\", debug").unwrap().debug);
}

#[test]
fn zero_bold_is_the_same_as_none() {
    let a = parse("FONT, \"f.png\", bold = 0").unwrap();
    let b = parse("FONT, \"f.png\"").unwrap();
    assert_eq!(a.bold, b.bold);
}

#[test]
fn keys_may_be_escaped_characters_and_hex_numbers() {
    let a = parse("F, \"f\", widths = { '\\'' = 2, '\\\\' = 3, 0x41 = 4, 1_0 = 5 }").unwrap();
    assert_eq!(a.width_overrides, vec![(39, 2), (92, 3), (65, 4), (10, 5)]);
}

#[test]
fn trailing_comma_is_accepted() {
    let a = parse("FONT, \"f.png\", full,").unwrap();
    assert_eq!(a.grid, Some((16, 16)));
}

#[test]
fn path_escapes_are_resolved() {
    let a = parse("F, \"a\\\\b\\\"c\"").unwrap();
    assert_eq!(a.path, b"a\\b\"c".to_vec());
}

#[test]
fn refused_arguments() {
    assert_eq!(err("FONT, \"f.png\", 8, 16"), ArgsError::BareNumber);
    assert_eq!(err("FONT, \"f.png\", full, size(16, 6)"), ArgsError::GridTwice);
    assert_eq!(err("FONT, \"f.png\", size(16, 6), full"), ArgsError::GridTwice);
    assert_eq!(err("FONT, \"f.png\", size(16, 6, 1)"), ArgsError::ExpectedSize);
    assert_eq!(err("FONT, \"f.png\", widths = { 'é' = 3 }"), ArgsError::NonAsciiChar);
    assert_eq!(err("FONT, \"f.png\", recolor = { 0 = 3 }"), ArgsError::BackgroundBand);
    assert_eq!(err("FONT, \"f.png\", recolor = { 16 = 3 }"), ArgsError::BandOutOfRange);
    assert_eq!(err("FONT, \"f.png\", recolor = { 3 = 16 }"), ArgsError::BandOutOfRange);
    assert_eq!(err("FONT, \"f.png\", monospace = 300"), ArgsError::NumberTooLarge);
    assert_eq!(err("FONT, \"f.png\", size(99999999999, 6)"), ArgsError::NumberTooLarge);
    assert_eq!(err("FONT, \"f.png\", italic"), ArgsError::UnknownArgument(15, 21));
    assert_eq!(err("FONT, \"f.png\" full"), ArgsError::UnexpectedTokens);
    assert_eq!(err("FONT \"f.png\""), ArgsError::Expected(Expect::Comma));
    assert_eq!(err("FONT, f"), ArgsError::Expected(Expect::StrLit));
    assert_eq!(err("\"f.png\""), ArgsError::Expected(Expect::Ident));
    assert_eq!(err("FONT, \"f.png\", size 16"), ArgsError::Expected(Expect::Parens));
    assert_eq!(err("FONT, \"f.png\", widths { }"), ArgsError::Expected(Expect::Equals));
    assert_eq!(err("FONT, \"f.png\", widths = ("), ArgsError::Expected(Expect::Braces));
    assert_eq!(err("FONT, \"f.png\", widths = { 'A' = 5"), ArgsError::Expected(Expect::CloseBrace));
    assert_eq!(err("FONT, \"f.png"), ArgsError::InvalidLiteral);
    assert_eq!(err("FONT, \"f\\q\""), ArgsError::InvalidLiteral);
    assert_eq!(err("FONT, \"f\", widths = { 0x = 1 }"), ArgsError::InvalidLiteral);
}

#[test]
fn tokens_keep_their_spans_and_values() {
    let t = tokenize(b" a = 0x1F, 'b' \"x\"").unwrap();
    let kinds: Vec<TokKind> = t.iter().map(|t| t.kind).collect();
    assert_eq!(kinds, vec![TokKind::Ident, TokKind::Punct, TokKind::Int, TokKind::Punct, TokKind::Char, TokKind::Str]);
    assert_eq!((t[0].start, t[0].end), (1, 2));
    assert_eq!(t[1].val, b'=' as u64);
    assert_eq!(t[2].val, 31);
    assert_eq!(t[4].val, b'b' as u64);
    assert_eq!((t[5].start, t[5].end), (15, 18));
}

#[test]
fn width_entries_are_paste_ready() {
    assert_eq!(width_entry(b'A', 5), "'A' = 5,");
    assert_eq!(width_entry(b'\'', 3), "'\\'' = 3,");
    assert_eq!(width_entry(b'\\', 12), "'\\\\' = 12,");
    assert_eq!(width_entry(0xE9, 100), "0xe9 = 100,");
}

/// A small font's bytes: 4x2 cells, every glyph 1 wide but 'A' (3).
fn small_font_bytes(overhang: u8) -> Vec<u8> {
    let mut bytes = vec![0u8; 100 + 95 * 8];
    bytes[1] = 4;
    bytes[2] = 2;
    for i in 0..95 {
        bytes[3 + i] = 1;
    }
    bytes[3 + 33] = 3;
    bytes[98] = overhang;
    bytes
}

#[test]
fn debug_report_lists_the_widths_block() {
    let args = parse("FONT, \"font.png\", bold, recolor = { 15 = 13 }").unwrap();
    let bytes = small_font_bytes(1);
    let lines = debug_report(&args, "FONT", "/x/font.png", &bytes, 95);
    assert_eq!(lines[0], "include_agb_font!(FONT), /x/font.png");
    assert_eq!(
        lines[1],
        "  small font, 95 glyphs, grid 16x6, cell 4x2, 860 bytes, bold = 1, right overhang 1px, recolor 1 band(s)"
    );
    assert_eq!(lines[2], "  widths = {");
    assert_eq!(lines.len(), 3 + 12 + 1);
    // '\'' = 1, is the longest entry (9 characters); the others are padded to it
    assert_eq!(lines[3], "    ' ' = 1,  '!' = 1,  '\"' = 1,  '#' = 1,  '$' = 1,  '%' = 1,  '&' = 1,  '\\'' = 1,");
    assert_eq!(lines[7], "    '@' = 1,  'A' = 3,  'B' = 1,  'C' = 1,  'D' = 1,  'E' = 1,  'F' = 1,  'G' = 1,");
    assert_eq!(lines[14], "    'x' = 1,  'y' = 1,  'z' = 1,  '{' = 1,  '|' = 1,  '}' = 1,  '~' = 1,");
    assert_eq!(lines[15], "  }");
}

#[test]
fn debug_report_pads_entries_to_the_longest() {
    let args = parse("F, \"f\", monospace = 7, widths = { 'A' = 12 }").unwrap();
    let mut bytes = small_font_bytes(0);
    bytes[3 + 33] = 12;
    let lines = debug_report(&args, "F", "f", &bytes, 95);
    assert_eq!(lines[1], "  small font, 95 glyphs, grid 16x6, cell 4x2, 860 bytes, monospace = 7, 1 width override(s)");
    assert_eq!(lines[3], "    ' ' = 1,  '!' = 1,  '\"' = 1,  '#' = 1,  '$' = 1,  '%' = 1,  '&' = 1,  '\\'' = 1,");
    assert_eq!(lines[7], "    '@' = 1,  'A' = 12, 'B' = 1,  'C' = 1,  'D' = 1,  'E' = 1,  'F' = 1,  'G' = 1,");
}

#[test]
fn declared_fonts_pack_with_their_arguments() {
    let mut img = SheetImage { width: 64, height: 12, rgba: vec![0u8; 64 * 12 * 4] };
    let at = ((2 * 2 * 64) + (1 * 4) + 2) * 4;
    img.rgba[at..at + 4].copy_from_slice(&[255, 255, 255, 255]);
    let args = parse("FONT, \"f.png\", bold = 2").unwrap();
    let bytes = declared_font_bytes(&args, &img).unwrap();
    assert_eq!(&bytes[0..3], &[0, 6, 2]);
    assert_eq!(bytes[3 + 33], 3);
    assert_eq!(bytes[98], 2);
    let args = parse("FONT, \"f.png\", full").unwrap();
    assert!(declared_font_bytes(&args, &img).is_err());
}

#[test]
fn integer_literals_take_prefixes_and_suffixes() {
    assert_eq!(parse("F, \"f\", monospace = 8u8").unwrap().monospace, Some(Some(8)));
    assert_eq!(parse("F, \"f\", widths = { 0b1000001 = 0o7 }").unwrap().width_overrides, vec![(65, 7)]);
    assert_eq!(parse("F, \"f\", size(16usize, 0x6_i32)").unwrap().grid, Some((16, 6)));
    assert_eq!(err("F, \"f\", monospace = 8q"), ArgsError::InvalidLiteral);
    assert_eq!(err("F, \"f\", monospace = 0b2"), ArgsError::InvalidLiteral);
    assert_eq!(err("F, \"f\", bold = 1e5"), ArgsError::InvalidLiteral);
}

#[test]
fn printed_widths_paste_back_into_a_declaration() {
    let args = parse("FONT, \"font.png\"").unwrap();
    let mut bytes = small_font_bytes(0);
    for i in 0..95 {
        bytes[3 + i] = (i * 37 % 200) as u8;
    }
    let lines = debug_report(&args, "FONT", "font.png", &bytes, 95);
    let block = lines[2..].join("\n");
    let pasted = format!("FONT, \"font.png\", {}", block.trim_start());
    let again = parse(&pasted).unwrap();
    let expected: Vec<(u8, u8)> = (0..95).map(|i| (32 + i as u8, bytes[3 + i])).collect();
    assert_eq!(again.width_overrides, expected);
}

#[test]
fn declarations_report_only_when_asked() {
    let mut img = SheetImage { width: 64, height: 12, rgba: vec![0u8; 64 * 12 * 4] };
    let at = ((2 * 2 * 64) + (1 * 4) + 2) * 4;
    img.rgba[at..at + 4].copy_from_slice(&[255, 255, 255, 255]);
    let quiet = parse("FONT, \"f.png\"").unwrap();
    let (bytes, lines) = expand_declaration(&quiet, &img, "FONT", "f.png").unwrap();
    assert_eq!(bytes.len(), 860);
    assert!(lines.is_empty());
    let loud = parse("FONT, \"f.png\", debug").unwrap();
    let (_, lines) = expand_declaration(&loud, &img, "FONT", "f.png").unwrap();
    assert_eq!(lines.len(), 16);
    assert_eq!(lines[1], "  small font, 95 glyphs, grid 16x6, cell 4x2, 860 bytes");
    assert_eq!(lines[7], "    '@' = 1,  'A' = 3,  'B' = 1,  'C' = 1,  'D' = 1,  'E' = 1,  'F' = 1,  'G' = 1,");
}

#[test]
fn one_printed_width_entry_reads_back() {
    for (cp, w) in [(b'A', 5u8), (0x1f, 3), (b'\'', 7), (b'\\', 0), (0xff, 255)] {
        let src = format!("F, \"f.png\", widths = {{\n    {}\n  }}", width_entry(cp, w));
        let a = parse(&src).unwrap();
        assert_eq!(a.width_overrides, vec![(cp, w)], "{src}");
    }
}

#[test]
fn a_declaration_with_one_printed_width_parses() {
    for (cp, w) in [(b'A', 5u8), (0x1f, 3), (b'\'', 7), (b'\\', 0), (0xff, 255), (b' ', 1)] {
        let src = format!("F, \"f\",  widths = {{\n    {}\n  }}", width_entry(cp, w));
        let a = parse(&src).unwrap();
        assert_eq!(a.name, (0, 1));
        assert_eq!(a.path, b"f".to_vec());
        assert_eq!(a.width_overrides, vec![(cp, w)], "{src}");
    }
}

use gba_agb_font::font::AgbFont;
use gba_agb_font::multi_typewriter::MultiTypewriterRenderer;
use gba_agb_font::printable::PrintableFont;
use gba_agb_font::slot::SlotFont;
use gba_agb_font::sprite_renderer::SpriteTextRenderer;
use gba_agb_font::text_format::{TextAlign, TextFormat, TextOverflow};
use gba_agb_font::text_renderer::TextRenderer;
use gba_agb_font::typewriter::TypewriterRenderer;

/// A small font of 4 x `height` cells: every glyph 2 pixels wide but 'M'
/// (5), row 0 of glyph `i` inked at pixels 0 and 1 with index `1 + i % 15`.
fn font_bytes(height: u8, overhang: u8) -> Vec<u8> {
    let h = height as usize;
    let mut bytes = vec![0u8; 100 + 95 * h * 4];
    bytes[1] = 4;
    bytes[2] = height;
    for i in 0..95 {
        bytes[3 + i] = if i == (b'M' - 32) as usize { 5 } else { 2 };
        let word = 0x11u32 * (1 + (i as u32) % 15);
        bytes[100 + 4 * i * h..100 + 4 * i * h + 4].copy_from_slice(&word.to_le_bytes());
    }
    bytes[98] = overhang;
    bytes
}

fn font(height: u8, overhang: u8) -> PrintableFont {
    PrintableFont::from_static_bytes(&font_bytes(height, overhang))
}

/// Colour of glyph `c` in the test fonts.
fn ink(c: u8) -> u32 {
    1 + ((c - 32) as u32) % 15
}

/// Pixel `(x, y)` of the screen that `tiles` cover.
fn px(tiles: &[(i32, i32, [u32; 8], u8)], x: i32, y: i32) -> u32 {
    for &(tx, ty, rows, _) in tiles {
        if tx == x.div_euclid(8) && ty == y.div_euclid(8) {
            return (rows[y.rem_euclid(8) as usize] >> (4 * x.rem_euclid(8))) & 0xF;
        }
    }
    0
}

fn row(tiles: &[(i32, i32, [u32; 8], u8)], y: i32, from: i32, to: i32) -> Vec<u32> {
    (from..to).map(|x| px(tiles, x, y)).collect()
}

#[test]
fn glyphs_are_drawn_with_letter_spacing() {
    let f = font(1, 0);
    let mut r = TextRenderer::default();
    let res = r.draw_text(b"AB", &f, (0, 0), &TextFormat::default());
    assert_eq!(res, (5, 0, 5));
    let (a, b) = (ink(b'A'), ink(b'B'));
    assert_eq!(row(r.tiles(), 0, 0, 7), vec![a, a, 0, b, b, 0, 0]);
}

#[test]
fn glyphs_cross_tile_edges() {
    let f = font(1, 0);
    let mut r = TextRenderer::default();
    r.draw_text(b"AB", &f, (6, 3), &TextFormat::default());
    let (a, b) = (ink(b'A'), ink(b'B'));
    assert_eq!(row(r.tiles(), 3, 5, 12), vec![0, a, a, 0, b, b, 0]);
    assert_eq!(r.tile_count(), 2);
}

#[test]
fn words_wrap_onto_the_next_line() {
    let f = font(1, 0);
    let mut r = TextRenderer::default();
    let res = r.draw_text(b"AB CD", &f, (0, 0), &TextFormat::wrapped(6));
    assert_eq!(res, (5, 1, 5));
    assert_eq!(row(r.tiles(), 1, 0, 5), vec![ink(b'C'), ink(b'C'), 0, ink(b'D'), ink(b'D')]);
}

#[test]
fn right_alignment_offsets_the_line() {
    let f = font(1, 0);
    let mut r = TextRenderer::default();
    let res = r.draw_text(b"AB", &f, (0, 0), &TextFormat::right_aligned(20));
    assert_eq!(res, (20, 0, 5));
    assert_eq!(px(r.tiles(), 15, 0), ink(b'A'));
    assert_eq!(px(r.tiles(), 14, 0), 0);
}

#[test]
fn cutoff_skips_glyphs_from_the_limit_on() {
    let f = font(1, 0);
    let mut r = TextRenderer::default();
    let res = r.draw_text(b"AAAA", &f, (0, 0), &TextFormat::cutoff(4));
    assert_eq!(res, (11, 0, 11));
    let a = ink(b'A');
    assert_eq!(row(r.tiles(), 0, 0, 8), vec![a, a, 0, a, a, 0, 0, 0]);
}

#[test]
fn clear_rectangles_widen_by_the_overhang() {
    let plain = font(1, 0);
    let mut r = TextRenderer::default();
    r.draw_text(b"AB", &plain, (0, 0), &TextFormat::default());
    r.draw_text(b"", &plain, (0, 0), &TextFormat::default().with_clear(3, 1));
    assert_eq!(row(r.tiles(), 0, 0, 5), vec![0, 0, 0, ink(b'B'), ink(b'B')]);

    let bold = font(1, 2);
    let mut r = TextRenderer::default();
    r.draw_text(b"AB", &bold, (0, 0), &TextFormat::default());
    r.draw_text(b"", &bold, (0, 0), &TextFormat::default().with_clear(3, 1));
    assert_eq!(row(r.tiles(), 0, 0, 5), vec![0, 0, 0, 0, 0]);
}

#[test]
fn reset_blanks_or_drops_tiles() {
    let f = font(1, 0);
    let mut r = TextRenderer::default();
    r.draw_text(b"AB", &f, (0, 0), &TextFormat::default());
    r.reset(false);
    assert_eq!(r.tile_count(), 1);
    assert_eq!(px(r.tiles(), 0, 0), 0);
    r.reset(true);
    assert_eq!(r.tile_count(), 0);
}

#[test]
fn sprites_pack_glyphs_side_by_side() {
    let f = font(1, 0);
    let mut s = SpriteTextRenderer::new();
    let res = s.draw_text(b"AB", &f, (0, 0), &TextFormat::default());
    assert_eq!(res, (5, 0, 5));
    assert_eq!(s.object_count(), 1);
    let o = &s.objects()[0];
    assert_eq!((o.pos, o.width, o.height), ((0, 0), 8, 8));
    assert_eq!(o.data.len(), 32);
    let (a, b) = (ink(b'A') as u8, ink(b'B') as u8);
    assert_eq!(&o.data[0..4], &[a | a << 4, b << 4, b, 0]);
    s.clear();
    assert_eq!(s.object_count(), 0);
}

#[test]
fn long_lines_take_several_sprites() {
    let f = font(1, 0);
    let mut s = SpriteTextRenderer::new();
    let res = s.draw_text(&[b'A'; 20], &f, (0, 0), &TextFormat::default());
    assert_eq!(res, (59, 0, 59));
    assert_eq!(s.object_count(), 2);
    assert_eq!((s.objects()[0].pos, s.objects()[0].width), ((0, 0), 32));
    assert_eq!((s.objects()[1].pos, s.objects()[1].width), ((33, 0), 32));
}

#[test]
fn sprite_lines_stop_at_the_cutoff() {
    let f = font(1, 0);
    let mut s = SpriteTextRenderer::new();
    let res = s.draw_text(b"AAAA", &f, (0, 0), &TextFormat::cutoff(4));
    assert_eq!(res, (5, 0, 11));
    assert_eq!(s.object_count(), 1);
}

#[test]
fn sprites_and_tiles_return_the_same_cursor() {
    let f = font(1, 0);
    for format in [TextFormat::wrapped(6), TextFormat::centered(30), TextFormat::hard_wrapped(4)] {
        let mut s = SpriteTextRenderer::new();
        let mut r = TextRenderer::default();
        assert_eq!(
            s.draw_text(b"AB CD\nMM", &f, (3, 4), &format),
            r.draw_text(b"AB CD\nMM", &f, (3, 4), &format)
        );
    }
}

#[test]
fn typewriter_reveals_chunks_per_update() {
    let f = font(1, 0);
    let mut tw = TypewriterRenderer::new(2, 1, &TextFormat::default());
    tw.load_text(b"Hello", (0, 0));
    assert_eq!(tw.update(), 2);
    assert_eq!(tw.chars_revealed(), 2);
    assert_eq!(tw.update(), 2);
    assert!(!tw.is_complete());
    assert_eq!(tw.update(), 1);
    assert!(tw.is_complete());
    assert_eq!(tw.update(), 0);
    tw.draw(&f, 15);
    assert_eq!(px(tw.renderer_mut().tiles(), 0, 0), ink(b'H'));
    assert_eq!(tw.cursor(), (14, 0));
}

#[test]
fn typewriter_waits_between_updates_and_after_punctuation() {
    let mut tw = TypewriterRenderer::new(0, 3, &TextFormat::default());
    tw.load_text(b"Hi. x", (0, 0));
    assert_eq!((tw.update(), tw.update(), tw.update()), (0, 0, 1));
    tw.complete();
    assert!(tw.is_complete());
    assert_eq!(tw.chars_revealed(), 5);

    let mut tw = TypewriterRenderer::new(1, 1, &TextFormat::default());
    tw.punctuation_pause_frames = 2;
    tw.load_text(b"Hi. x", (0, 0));
    let got: Vec<usize> = (0..7).map(|_| tw.update()).collect();
    assert_eq!(got, vec![1, 1, 1, 0, 0, 1, 1]);
}

#[test]
fn many_streams_reveal_independently() {
    let f: &'static PrintableFont = Box::leak(Box::new(font(1, 0)));
    let mut m = MultiTypewriterRenderer::new(1, 2);
    assert_eq!(m.add_text(SlotFont::from(f), b"abc", (0, 0), &TextFormat::default()), 0);
    assert_eq!(m.add_text(SlotFont::from(f), b"defgh", (0, 8), &TextFormat::default()), 1);
    assert_eq!(m.slot_count(), 2);
    assert_eq!(m.update(), 4);
    assert_eq!(m.slot_chars_revealed(0), 2);
    m.complete_slot(1);
    assert!(m.is_slot_complete(1));
    assert!(!m.is_complete());
    m.complete_all();
    assert!(m.is_complete());
    m.draw_slot(1, 15);
    assert_eq!(px(m.renderer_mut().tiles(), 0, 8), ink(b'd'));
}

#[test]
fn measuring_follows_spacing() {
    let f = font(3, 0);
    let one = f.size_of(b"M", None, 0, 0).0;
    assert_eq!(f.size_of(b"M", None, -1, 0).0, one);
    assert_eq!(f.size_of(b"M", None, 3, 0).0, one);
    let base = f.size_of(b"MMMM", None, 0, 0).0;
    for spacing in 1..=4i8 {
        assert_eq!(f.size_of(b"MMMM", None, spacing, 0).0, base + 3 * spacing as u32);
    }
    let tight = f.size_of(b"MMMM", None, -1, 0).0;
    assert!(tight < base && tight >= 4);

    assert_eq!(f.size_of(b"M", None, 0, 3).1, f.size_of(b"M", None, 0, 0).1);
    let tall = f.size_of(b"M\nM\nM", None, 0, 0).1;
    for ls in 1..=4i8 {
        assert_eq!(f.size_of(b"M\nM\nM", None, 0, ls).1, tall + 2 * ls as u32);
    }
    let short = f.size_of(b"M\nM\nM", None, 0, -1).1;
    assert!(short < tall && short >= 3);
}

#[test]
fn lines_split_at_line_feeds_and_wraps() {
    let f = font(1, 0);
    let mut lines = f.lines(b"AB\nCD", None, false, 1);
    assert_eq!(lines.next(), Some((&b"AB"[..], 5)));
    assert_eq!(lines.next(), Some((&b"CD"[..], 5)));
    assert_eq!(lines.next(), None);
    assert_eq!(f.measure_line(b"AB\nCD", None, 1), (5, 3));
    let mut text = *b"AB CD";
    f.word_wrap_in_place(&mut text, 6, 1);
    assert_eq!(&text, b"AB\nCD");
}

#[test]
fn formats_build_as_named() {
    assert_eq!(TextFormat::wrapped(10), TextFormat::new(TextOverflow::Wrap(10, true), TextAlign::Left, (0, 0)));
    assert_eq!(TextFormat::hard_wrapped(10).overflow, TextOverflow::Wrap(10, false));
    assert_eq!(TextFormat::cutoff(7).overflow, TextOverflow::Cutoff(7));
    assert_eq!(TextFormat::centered(9).align, TextAlign::Center(9));
    assert_eq!(TextFormat::right_aligned(9).align, TextAlign::Right(9));
    let f = TextFormat::default().with_clear(3, 4).with_align(TextAlign::Center(2)).with_overflow(TextOverflow::Cutoff(1));
    assert_eq!(f, TextFormat::new(TextOverflow::Cutoff(1), TextAlign::Center(2), (3, 4)));
    assert_eq!(TextFormat::default(), TextFormat::new(TextOverflow::Nothing, TextAlign::Left, (0, 0)));
}

#[test]
fn new_tiles_take_the_palette_they_are_drawn_with() {
    let f = font(1, 0);
    let mut r = TextRenderer::default();
    r.draw_text(b"A", &f, (0, 0), &TextFormat::default());
    assert_eq!(r.tiles()[0].3, 15);

    let mut tw = TypewriterRenderer::new(1, 1, &TextFormat::default());
    tw.load_text(b"AB", (0, 0));
    tw.update();
    tw.draw(&f, 7);
    tw.update();
    tw.load_text(b"AB", (0, 0));
    tw.complete();
    tw.draw(&f, 3);
    let tiles = tw.renderer_mut().tiles().to_vec();
    assert_eq!(tiles.iter().map(|t| t.3).collect::<Vec<u8>>(), vec![7]);

    let f: &'static PrintableFont = Box::leak(Box::new(font(1, 0)));
    let mut m = MultiTypewriterRenderer::new(1, 1);
    m.add_text(SlotFont::from(f), b"a", (0, 0), &TextFormat::default());
    m.add_text(SlotFont::from(f), b"b", (0, 8), &TextFormat::default());
    m.complete_all();
    m.draw_slot(0, 4);
    m.draw(9);
    let pals: Vec<(i32, i32, u8)> = m.renderer_mut().tiles().iter().map(|t| (t.0, t.1, t.3)).collect();
    assert_eq!(pals, vec![(0, 0, 4), (0, 1, 9)]);
    m.clear_slot(0);
    assert_eq!(m.renderer_mut().tiles()[0].3, 4);
}

#[test]
fn updates_reveal_at_the_clamped_rate() {
    let mut tw = TypewriterRenderer::new(3, 2, &TextFormat::default());
    tw.load_text(b"abcdefgh", (0, 0));
    let mut got = Vec::new();
    for _ in 0..7 {
        tw.update();
        got.push(tw.chars_revealed());
    }
    assert_eq!(got, vec![0, 3, 3, 6, 6, 8, 8]);
    assert!(tw.is_complete());

    let mut tw = TypewriterRenderer::new(0, 0, &TextFormat::default());
    tw.load_text(b"abc", (0, 0));
    let got: Vec<usize> = (0..4).map(|_| tw.update()).collect();
    assert_eq!(got, vec![1, 1, 1, 0]);
}

#[test]
fn a_second_draw_without_reveals_changes_nothing() {
    let f: &'static PrintableFont = Box::leak(Box::new(font(1, 0)));
    let mut m = MultiTypewriterRenderer::new(1, 1);
    m.add_text(SlotFont::from(f), b"ab", (0, 0), &TextFormat::default());
    m.update_slot(0);
    m.draw_slot(0, 15);
    let once = m.renderer_mut().tiles().to_vec();
    let cursor = m.slot_cursor(0);
    m.draw_slot(0, 15);
    assert_eq!(m.renderer_mut().tiles().to_vec(), once);
    assert_eq!(m.slot_cursor(0), cursor);
    m.clear_slot(0);
    assert!(m.is_slot_complete(0));
    assert_eq!(m.slot_chars_revealed(0), 0);
    assert_eq!(m.update_slot(0), 0);
}

fn all_lines(f: &PrintableFont, t: &[u8], wrap: Option<u32>, word_wrap: bool) -> Vec<(Vec<u8>, u32)> {
    let mut lines = f.lines(t, wrap, word_wrap, 1);
    let mut out = Vec::new();
    while let Some((l, w)) = lines.next() {
        out.push((l.to_vec(), w));
    }
    out
}

#[test]
fn word_wrap_without_a_width_breaks_at_line_feeds_only() {
    let f = font(1, 0);
    let t = b"AB CD\nEF GH IJ";
    assert_eq!(all_lines(&f, t, None, true), all_lines(&f, t, None, false));
    assert_eq!(all_lines(&f, t, None, true).len(), 2);
}

#[test]
fn wrapped_size_is_widest_line_by_line_count() {
    let f = font(1, 0);
    let t = b"ABCDEFG";
    let lines = all_lines(&f, t, Some(8), false);
    assert_eq!(lines.iter().map(|l| l.0.len()).collect::<Vec<usize>>(), vec![3, 3, 1]);
    let widest = lines.iter().map(|l| l.1).max().unwrap();
    assert_eq!(f.size_of(t, Some(8), 1, 2), (widest, 1 + 2 * 3));
    assert_eq!(f.size_of(b"AB", Some(8), 1, 5), (5, 1));
}

#[test]
fn a_completed_draw_ends_at_the_measured_width() {
    let f = font(1, 0);
    for text in [&b"Hello"[..], b"MAM", b"x"] {
        let mut tw = TypewriterRenderer::new(1, 1, &TextFormat::default());
        tw.load_text(text, (3, 4));
        tw.complete();
        tw.draw(&f, 15);
        assert_eq!(tw.cursor(), (3 + f.measure_line(text, None, 1).0 as i32, 4));
    }
}

#[test]
fn wrapping_a_wrapped_text_changes_nothing() {
    let f = font(1, 0);
    let mut text = *b"AB CD EF G HI\nJK LM";
    f.word_wrap_in_place(&mut text, 9, 1);
    let once = text;
    assert_ne!(&once[..], &b"AB CD EF G HI\nJK LM"[..]);
    f.word_wrap_in_place(&mut text, 9, 1);
    assert_eq!(text, once);
}

#[test]
fn drawing_in_chunks_matches_drawing_at_once() {
    let f = font(1, 0);
    let format = TextFormat::wrapped(9);
    let mut step = TypewriterRenderer::new(1, 1, &format);
    step.load_text(b"AB CD EF\nGH", (2, 0));
    while !step.is_complete() {
        step.update();
        step.draw(&f, 15);
    }
    let mut once = TypewriterRenderer::new(1, 1, &format);
    once.load_text(b"AB CD EF\nGH", (2, 0));
    once.complete();
    once.draw(&f, 15);
    assert_eq!(step.cursor(), once.cursor());
    let a = step.renderer_mut().tiles().to_vec();
    let b = once.renderer_mut().tiles().to_vec();
    for y in 0..40 {
        assert_eq!(row(&a, y, 0, 24), row(&b, y, 0, 24));
    }
}

#[test]
fn only_inked_tiles_are_placed() {
    let f = font(1, 0);
    let mut r = TextRenderer::default();
    r.draw_text(b"A", &f, (6, 0), &TextFormat::default());
    assert_eq!(r.tile_count(), 1);
    r.draw_text(b"A", &f, (7, 8), &TextFormat::default());
    assert_eq!(r.tile_count(), 3);
    r.draw_text(b"A", &f, (0, 0), &TextFormat::default());
    assert_eq!(r.tile_count(), 3);
}

#[test]
fn later_zero_width_glyphs_keep_the_measured_cursor() {
    let mut bytes = font_bytes(1, 0);
    bytes[3 + (b'B' - 32) as usize] = 0;
    let f = PrintableFont::from_static_bytes(&bytes);
    let mut tw = TypewriterRenderer::new(1, 1, &TextFormat::default());
    tw.load_text(b"ABBA", (0, 0));
    tw.complete();
    tw.draw(&f, 15);
    assert_eq!(tw.cursor(), (f.measure_line(b"ABBA", None, 1).0 as i32, 0));
}

use vstd::prelude::*;
use vstd::string::{StrSliceExecFns, StringExecFns};
use crate::create::{create_bytes, create_error, created_font, CreateError};
use crate::edit::{decimal_chars, decimal_text, width_key, width_key_chars};
use crate::macro_args::{args_grid, ArgsView, FontArgs};
use crate::laws::law_created_font_parses;
use crate::parsing::SheetImage;

verus! {

/// Packs the sheet of a font declaration into font bytes: the arguments'
/// grid (16x6 when none is given), monospacing, width overrides, bold and
/// recoloring (see `create_bytes`)
pub fn declared_font_bytes(args: &FontArgs, img: &SheetImage) -> (r: Result<Vec<u8>, CreateError>)
    requires
        img.wf(),
    ensures
        ({
            let (cols, rows) = args_grid(args@);
            match r {
                Ok(bytes) => create_error(*img, cols, rows, args@.widths, args@.bold, args@.recolor) is None
                    && created_font(bytes@, *img, cols, rows, args@.monospace, args@.widths, args@.bold, args@.recolor),
                Err(e) => create_error(*img, cols, rows, args@.widths, args@.bold, args@.recolor) == Some(e),
            }
        }),
{
    let (cols, rows) = args.grid();
    create_bytes(
        cols,
        rows,
        img,
        args.monospace,
        args.width_overrides.as_slice(),
        args.bold,
        args.recolor.as_slice(),
    )
}

/// One `key = width,` entry of a widths block.
pub open spec fn entry_chars(cp: u8, w: u8) -> Seq<char> {
    width_key_chars(cp) + " = "@ + decimal_chars(w as nat) + ","@
}

/// The `key = width,` entry of code point `cp`
pub fn width_entry(cp: u8, w: u8) -> (r: String)
    ensures
        r@ == entry_chars(cp, w),
{
    let mut s = width_key(cp);
    s.append(" = ");
    let d = decimal_text(w as u64);
    s.append(d.as_str());
    s.append(",");
    s
}

/// The entries of the widths of a font whose first glyph is `first_cp`.
pub open spec fn entries_of(first_cp: u8, widths: Seq<u8>) -> Seq<Seq<char>> {
    Seq::new(widths.len(), |i: int| entry_chars((first_cp + i) as u8, widths[i]))
}

/// Length of the longest of `es`, 0 for none.
pub open spec fn max_len(es: Seq<Seq<char>>) -> int
    decreases es.len(),
{
    if es.len() == 0 {
        0
    } else {
        let m = max_len(es.drop_last());
        if es.last().len() > m {
            es.last().len() as int
        } else {
            m
        }
    }
}

/// `n` spaces.
pub open spec fn spaces(n: int) -> Seq<char> {
    Seq::new(if n > 0 {
        n as nat
    } else {
        0
    }, |i: int| ' ')
}

/// `e` padded with spaces on the right to `width` characters.
pub open spec fn padded(e: Seq<char>, width: int) -> Seq<char> {
    e + spaces(width - e.len())
}

/// The first `n` entries of a row, each after a space and padded to
/// `width` but the row's last one.
pub open spec fn row_pieces(row: Seq<Seq<char>>, width: int, n: int) -> Seq<char>
    decreases n,
{
    if n <= 0 {
        Seq::empty()
    } else {
        row_pieces(row, width, n - 1) + " "@ + if n < row.len() {
            padded(row[n - 1], width)
        } else {
            row[n - 1]
        }
    }
}

/// A printed row of entries: three spaces of indent, then the entries each
/// after a space and padded to `width`, with no padding after the last.
pub open spec fn row_chars(row: Seq<Seq<char>>, width: int) -> Seq<char> {
    "   "@ + row_pieces(row, width, row.len() as int)
}

/// The printed rows of entries, eight to a row.
pub open spec fn entry_rows(es: Seq<Seq<char>>, width: int) -> Seq<Seq<char>> {
    Seq::new(
        ((es.len() + 7) / 8) as nat,
        |k: int|
            row_chars(
                es.subrange(
                    8 * k,
                    if 8 * k + 8 < es.len() {
                        8 * k + 8
                    } else {
                        es.len() as int
                    },
                ),
                width,
            ),
    )
}

/// The notes on how a font was styled, in order.
pub open spec fn style_notes(a: ArgsView) -> Seq<Seq<char>> {
    let mono: Seq<Seq<char>> = match a.monospace {
        Some(Some(px)) => seq!["monospace = "@ + decimal_chars(px as nat)],
        Some(None) => seq!["monospace (widest glyph)"@],
        None => Seq::empty(),
    };
    let widths: Seq<Seq<char>> = if a.widths.len() > 0 {
        seq![decimal_chars(a.widths.len()) + " width override(s)"@]
    } else {
        Seq::empty()
    };
    let bold: Seq<Seq<char>> = if a.bold != 0 {
        seq!["bold = "@ + decimal_chars(a.bold as nat) + ", right overhang "@ + decimal_chars(a.bold as nat) + "px"@]
    } else {
        Seq::empty()
    };
    let recolor: Seq<Seq<char>> = if a.recolor.len() > 0 {
        seq!["recolor "@ + decimal_chars(a.recolor.len()) + " band(s)"@]
    } else {
        Seq::empty()
    };
    mono + widths + bold + recolor
}

/// Each note after `, `; nothing for no note.
pub open spec fn notes_suffix(notes: Seq<Seq<char>>) -> Seq<char>
    decreases notes.len(),
{
    if notes.len() == 0 {
        Seq::empty()
    } else {
        notes_suffix(notes.drop_last()) + ", "@ + notes.last()
    }
}

/// The summary line of a packed font.
pub open spec fn summary_chars(a: ArgsView, bytes: Seq<u8>, glyph_count: int) -> Seq<char> {
    let (cols, rows) = args_grid(a);
    "  "@ + (if bytes[0] == 0 {
        "small"@
    } else {
        "full"@
    }) + " font, "@ + decimal_chars(glyph_count as nat) + " glyphs, grid "@ + decimal_chars(cols as nat) + "x"@
        + decimal_chars(rows as nat) + ", cell "@ + decimal_chars(bytes[1] as nat) + "x"@ + decimal_chars(
        bytes[2] as nat,
    ) + ", "@ + decimal_chars(bytes.len()) + " bytes"@ + notes_suffix(style_notes(a))
}

/// The lines printed for a packed font: what was declared from where, a
/// summary, and its advance widths as a `widths = { … }` block that can be
/// pasted back into the declaration.
pub open spec fn debug_lines(a: ArgsView, name: Seq<char>, path: Seq<char>, bytes: Seq<u8>, glyph_count: int) -> Seq<
    Seq<char>,
> {
    let first_cp: u8 = if bytes[0] == 0 {
        32
    } else {
        0
    };
    let es = entries_of(first_cp, bytes.subrange(3, 3 + glyph_count));
    seq!["include_agb_font!("@ + name + "), "@ + path, summary_chars(a, bytes, glyph_count), "  widths = {"@]
        + entry_rows(es, max_len(es)) + seq!["  }"@]
}

/// Appends `n` spaces.
fn push_spaces(s: &mut String, n: usize)
    ensures
        final(s)@ == old(s)@ + spaces(n as int),
{
    let mut k: usize = 0;
    while k < n
        invariant
            k <= n,
            s@ == old(s)@ + spaces(k as int),
        decreases n - k,
    {
        proof {
            assert(spaces(k as int) + " "@ =~= spaces(k + 1)) by {
                reveal_strlit(" ");
            }
        }
        s.append(" ");
        k = k + 1;
    }
}

/// The entries `es[start..end]` printed as a row (see `row_chars`).
fn row_line(es: &Vec<String>, start: usize, end: usize, width: usize) -> (r: String)
    requires
        start < end <= es.len(),
    ensures
        r@ == row_chars(es@.subrange(start as int, end as int).map_values(|e: String| e@), width as int),
{
    let ghost row = es@.subrange(start as int, end as int).map_values(|e: String| e@);
    let mut s = String::from_str("   ");
    let mut k = start;
    while k < end
        invariant
            start <= k <= end <= es.len(),
            row == es@.subrange(start as int, end as int).map_values(|e: String| e@),
            s@ == "   "@ + row_pieces(row, width as int, k - start),
        decreases end - k,
    {
        let ghost before = s@;
        s.append(" ");
        s.append(es[k].as_str());
        proof {
            assert(row[k - start] == es@[k as int]@);
        }
        if k + 1 < end {
            let len = es[k].as_str().unicode_len();
            if len < width {
                push_spaces(&mut s, width - len);
            } else {
                proof {
                    assert(spaces(width - es@[k as int]@.len()) =~= Seq::<char>::empty());
                }
            }
            proof {
                assert(s@ =~= "   "@ + row_pieces(row, width as int, k + 1 - start));
            }
        } else {
            proof {
                assert(s@ =~= "   "@ + row_pieces(row, width as int, k + 1 - start));
            }
        }
        k = k + 1;
    }
    s
}

/// The lines to print for a packed font (see `debug_lines`)
pub fn debug_report(args: &FontArgs, name: &str, path: &str, bytes: &[u8], glyph_count: usize) -> (r: Vec<String>)
    requires
        3 + glyph_count <= bytes.len(),
        glyph_count <= 256,
        bytes[0] == 0 ==> glyph_count <= 224,
    ensures
        r@.map_values(|l: String| l@) == debug_lines(args@, name@, path@, bytes@, glyph_count as int),
{
    let mode_byte = bytes[0];
    let first_cp: u8 = if mode_byte == 0 {
        32
    } else {
        0
    };
    let mut lines: Vec<String> = Vec::new();
    let mut head = String::from_str("include_agb_font!(");
    head.append(name);
    head.append("), ");
    head.append(path);
    lines.push(head);
    lines.push(summary_line(args, bytes, glyph_count));
    lines.push(String::from_str("  widths = {"));
    proof {
        assert(lines@.map_values(|l: String| l@) =~= seq![
            "include_agb_font!("@ + name@ + "), "@ + path@,
            summary_chars(args@, bytes@, glyph_count as int),
            "  widths = {"@,
        ]);
    }
    let ghost widths = bytes@.subrange(3, 3 + glyph_count);
    let ghost es = entries_of(first_cp, widths);
    let mut entries: Vec<String> = Vec::new();
    let mut col_width: usize = 0;
    let mut i: usize = 0;
    while i < glyph_count
        invariant
            i <= glyph_count,
            3 + glyph_count <= bytes.len(),
            first_cp + glyph_count <= 256,
            widths == bytes@.subrange(3, 3 + glyph_count),
            es == entries_of(first_cp, widths),
            entries@.map_values(|e: String| e@) == es.take(i as int),
            col_width == max_len(es.take(i as int)),
            col_width <= 16,
        decreases glyph_count - i,
    {
        let e = width_entry(first_cp + i as u8, bytes[3 + i]);
        let len = e.as_str().unicode_len();
        proof {
            assert(es.take(i + 1).drop_last() =~= es.take(i as int));
            assert(es[i as int] == e@);
            lemma_entry_len(((first_cp + i) as u8), bytes@[3 + i]);
        }
        if len > col_width {
            col_width = len;
        }
        entries.push(e);
        proof {
            assert(entries@.map_values(|e: String| e@) =~= es.take(i + 1));
        }
        i = i + 1;
    }
    proof {
        assert(es.take(glyph_count as int) =~= es);
    }
    let ghost rows = entry_rows(es, col_width as int);
    let ghost before = lines@.map_values(|l: String| l@);
    let nrows = (glyph_count + 7) / 8;
    let mut k: usize = 0;
    while k < nrows
        invariant
            nrows == (glyph_count + 7) / 8,
            glyph_count <= 256,
            k <= nrows,
            entries@.len() == glyph_count,
            entries@.map_values(|e: String| e@) == es,
            es.len() == glyph_count,
            rows == entry_rows(es, col_width as int),
            lines@.map_values(|l: String| l@) == before + rows.take(k as int),
        decreases nrows - k,
    {
        let start = 8 * k;
        let end = if 8 * k + 8 < glyph_count {
            8 * k + 8
        } else {
            glyph_count
        };
        let line = row_line(&entries, start, end, col_width);
        proof {
            assert(entries@.subrange(start as int, end as int).map_values(|e: String| e@) =~= es.subrange(
                start as int,
                end as int,
            ));
        }
        let ghost old_lines = lines@;
        proof {
            assert(rows[k as int] == line@);
        }
        lines.push(line);
        proof {
            assert(lines@.map_values(|l: String| l@) =~= old_lines.map_values(|l: String| l@).push(line@));
            assert(rows.take(k + 1) =~= rows.take(k as int).push(line@));
            assert(lines@.map_values(|l: String| l@) =~= before + rows.take(k + 1));
        }
        k = k + 1;
    }
    let ghost mid = lines@;
    lines.push(String::from_str("  }"));
    proof {
        assert(rows.take(((glyph_count + 7) / 8) as int) =~= rows);
        assert(lines@.map_values(|l: String| l@) =~= mid.map_values(|l: String| l@).push("  }"@));
        assert(lines@.map_values(|l: String| l@) =~= debug_lines(args@, name@, path@, bytes@, glyph_count as int));
    }
    lines
}

/// Entries are at most 16 characters long.
proof fn lemma_entry_len(cp: u8, w: u8)
    ensures
        entry_chars(cp, w).len() <= 16,
{
    reveal_strlit(" = ");
    reveal_strlit(",");
    lemma_decimal_len(w as nat);
}

proof fn lemma_decimal_len(v: nat)
    requires
        v < 1000,
    ensures
        decimal_chars(v).len() <= 3,
{
    if v >= 10 {
        assert(decimal_chars(v / 10).len() <= 2) by {
            if v / 10 >= 10 {
                assert(decimal_chars(v / 100).len() == 1);
            }
        }
    }
}

/// The summary line of a packed font (see `summary_chars`).
fn summary_line(args: &FontArgs, bytes: &[u8], glyph_count: usize) -> (r: String)
    requires
        3 <= bytes.len(),
    ensures
        r@ == summary_chars(args@, bytes@, glyph_count as int),
{
    let (cols, rows) = args.grid();
    let mut s = String::from_str("  ");
    if bytes[0] == 0 {
        s.append("small");
    } else {
        s.append("full");
    }
    s.append(" font, ");
    let t = decimal_text(glyph_count as u64);
    s.append(t.as_str());
    s.append(" glyphs, grid ");
    let t = decimal_text(cols as u64);
    s.append(t.as_str());
    s.append("x");
    let t = decimal_text(rows as u64);
    s.append(t.as_str());
    s.append(", cell ");
    let t = decimal_text(bytes[1] as u64);
    s.append(t.as_str());
    s.append("x");
    let t = decimal_text(bytes[2] as u64);
    s.append(t.as_str());
    s.append(", ");
    let t = decimal_text(bytes.len() as u64);
    s.append(t.as_str());
    s.append(" bytes");
    let notes = style_notes_exec(args);
    let mut n: usize = 0;
    let ghost head = s@;
    while n < notes.len()
        invariant
            n <= notes.len(),
            s@ == head + notes_suffix(notes@.map_values(|x: String| x@).take(n as int)),
        decreases notes.len() - n,
    {
        proof {
            let all = notes@.map_values(|x: String| x@);
            assert(all.take(n + 1).drop_last() =~= all.take(n as int));
        }
        s.append(", ");
        s.append(notes[n].as_str());
        n = n + 1;
    }
    proof {
        assert(notes@.map_values(|x: String| x@).take(notes.len() as int) =~= notes@.map_values(|x: String| x@));
    }
    s
}

/// The notes on how a font was styled (see `style_notes`).
fn style_notes_exec(args: &FontArgs) -> (r: Vec<String>)
    ensures
        r@.map_values(|x: String| x@) == style_notes(args@),
{
    let mut notes: Vec<String> = Vec::new();
    match args.monospace {
        Some(Some(px)) => {
            let mut s = String::from_str("monospace = ");
            let t = decimal_text(px as u64);
            s.append(t.as_str());
            notes.push(s);
        },
        Some(None) => {
            notes.push(String::from_str("monospace (widest glyph)"));
        },
        None => {},
    }
    let ghost n1 = notes@.map_values(|x: String| x@);
    if args.width_overrides.len() > 0 {
        let mut s = decimal_text(args.width_overrides.len() as u64);
        s.append(" width override(s)");
        notes.push(s);
    }
    let ghost n2 = notes@.map_values(|x: String| x@);
    if args.bold != 0 {
        let mut s = String::from_str("bold = ");
        let t = decimal_text(args.bold as u64);
        s.append(t.as_str());
        s.append(", right overhang ");
        s.append(t.as_str());
        s.append("px");
        notes.push(s);
    }
    let ghost n3 = notes@.map_values(|x: String| x@);
    if args.recolor.len() > 0 {
        let mut s = String::from_str("recolor ");
        let t = decimal_text(args.recolor.len() as u64);
        s.append(t.as_str());
        s.append(" band(s)");
        notes.push(s);
    }
    proof {
        let a = args@;
        let mono: Seq<Seq<char>> = match a.monospace {
            Some(Some(px)) => seq!["monospace = "@ + decimal_chars(px as nat)],
            Some(None) => seq!["monospace (widest glyph)"@],
            None => Seq::empty(),
        };
        assert(n1 =~= mono);
        assert(notes@.map_values(|x: String| x@) =~= style_notes(args@));
    }
    notes
}

/// Glyphs a report lists for a font whose header starts with `mode_byte`:
/// 95 for a small font, 256 for a full one.
pub open spec fn report_glyph_count(mode_byte: u8) -> int {
    if mode_byte == 0 {
        95
    } else {
        256
    }
}

/// What declaring a font computes from its arguments and its sheet: the
/// font's bytes (see `declared_font_bytes`) and, when the declaration asks
/// for `debug`, the report to print (see `debug_lines`); no lines otherwise
pub fn expand_declaration(args: &FontArgs, img: &SheetImage, name: &str, path: &str) -> (r: Result<
    (Vec<u8>, Vec<String>),
    CreateError,
>)
    requires
        img.wf(),
    ensures
        ({
            let (cols, rows) = args_grid(args@);
            match r {
                Ok((bytes, lines)) => {
                    &&& create_error(*img, cols, rows, args@.widths, args@.bold, args@.recolor) is None
                    &&& created_font(
                        bytes@,
                        *img,
                        cols,
                        rows,
                        args@.monospace,
                        args@.widths,
                        args@.bold,
                        args@.recolor,
                    )
                    &&& lines@.map_values(|l: String| l@) == if args@.debug {
                        debug_lines(args@, name@, path@, bytes@, report_glyph_count(bytes@[0]))
                    } else {
                        Seq::empty()
                    }
                },
                Err(e) => create_error(*img, cols, rows, args@.widths, args@.bold, args@.recolor) == Some(e),
            }
        }),
{
    let bytes = match declared_font_bytes(args, img) {
        Ok(b) => b,
        Err(e) => {
            return Err(e);
        },
    };
    proof {
        let (cols, rows) = args_grid(args@);
        law_created_font_parses(
            bytes@,
            *img,
            cols,
            rows,
            args@.monospace,
            args@.widths,
            args@.bold,
            args@.recolor,
        );
    }
    let lines = if args.debug {
        let glyph_count: usize = if bytes[0] == 0 {
            95
        } else {
            256
        };
        debug_report(args, name, path, bytes.as_slice(), glyph_count)
    } else {
        let v: Vec<String> = Vec::new();
        proof {
            assert(v@.map_values(|l: String| l@) =~= Seq::<Seq<char>>::empty());
        }
        v
    };
    Ok((bytes, lines))
}

} // verus!

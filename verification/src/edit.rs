use vstd::prelude::*;
use vstd::string::{StringExecFns, StringSliceAdditionalSpecFns};
use crate::full::GLYPH_COUNT_FULL;
use crate::printable::GLYPH_COUNT_PRINTABLE;

verus! {

/// The decimal digit `d` (0..=9) as a character.
pub open spec fn digit_char(d: int) -> char {
    (48 + d) as char
}

/// The lower-case hexadecimal digit `d` (0..=15) as a character.
pub open spec fn hex_char(d: int) -> char {
    if d < 10 {
        (48 + d) as char
    } else {
        (87 + d) as char
    }
}

/// `v` written in decimal, without leading zeros.
pub open spec fn decimal_chars(v: nat) -> Seq<char>
    decreases v,
{
    if v < 10 {
        seq![digit_char(v as int)]
    } else {
        decimal_chars(v / 10) + seq![digit_char((v % 10) as int)]
    }
}

/// `cp` as `0x` and two lower-case hexadecimal digits.
pub open spec fn hex_byte_chars(cp: u8) -> Seq<char> {
    seq!['0', 'x', hex_char(cp as int / 16), hex_char(cp as int % 16)]
}

/// `cp` as a character literal: the Latin-1 character of that code between
/// single quotes.
pub open spec fn quoted_chars(cp: u8) -> Seq<char> {
    seq!['\'', cp as char, '\'']
}

/// The decimal digit `d` as a one-character string.
fn digit_str(d: u64) -> (r: &'static str)
    requires
        d < 10,
    ensures
        r@ == seq![digit_char(d as int)],
{
    match d {
        0 => {
            proof {
                reveal_strlit("0");
            }
            "0"
        },
        1 => {
            proof {
                reveal_strlit("1");
            }
            "1"
        },
        2 => {
            proof {
                reveal_strlit("2");
            }
            "2"
        },
        3 => {
            proof {
                reveal_strlit("3");
            }
            "3"
        },
        4 => {
            proof {
                reveal_strlit("4");
            }
            "4"
        },
        5 => {
            proof {
                reveal_strlit("5");
            }
            "5"
        },
        6 => {
            proof {
                reveal_strlit("6");
            }
            "6"
        },
        7 => {
            proof {
                reveal_strlit("7");
            }
            "7"
        },
        8 => {
            proof {
                reveal_strlit("8");
            }
            "8"
        },
        _ => {
            proof {
                reveal_strlit("9");
            }
            "9"
        },
    }
}

/// `v` in decimal, without leading zeros.
pub(crate) fn decimal_text(v: u64) -> (r: String)
    ensures
        r@ == decimal_chars(v as nat),
    decreases v,
{
    if v < 10 {
        String::from_str(digit_str(v))
    } else {
        let mut s = decimal_text(v / 10);
        s.append(digit_str(v % 10));
        s
    }
}

/// `'c'` where `c` is the `char` of code point `cp`, as `Display` for `char`
/// writes it between two quotes.
#[verifier::external_body]
fn quoted_text(cp: u8) -> (r: String)
    ensures
        r@ == quoted_chars(cp),
{
    format!("'{}'", cp as char)
}

/// The lower-case hexadecimal digit `d` as a one-character string.
fn hex_digit_str(d: u8) -> (r: &'static str)
    requires
        d < 16,
    ensures
        r@ == seq![hex_char(d as int)],
{
    match d {
        0 => {
            proof {
                reveal_strlit("0");
            }
            "0"
        },
        1 => {
            proof {
                reveal_strlit("1");
            }
            "1"
        },
        2 => {
            proof {
                reveal_strlit("2");
            }
            "2"
        },
        3 => {
            proof {
                reveal_strlit("3");
            }
            "3"
        },
        4 => {
            proof {
                reveal_strlit("4");
            }
            "4"
        },
        5 => {
            proof {
                reveal_strlit("5");
            }
            "5"
        },
        6 => {
            proof {
                reveal_strlit("6");
            }
            "6"
        },
        7 => {
            proof {
                reveal_strlit("7");
            }
            "7"
        },
        8 => {
            proof {
                reveal_strlit("8");
            }
            "8"
        },
        9 => {
            proof {
                reveal_strlit("9");
            }
            "9"
        },
        10 => {
            proof {
                reveal_strlit("a");
            }
            "a"
        },
        11 => {
            proof {
                reveal_strlit("b");
            }
            "b"
        },
        12 => {
            proof {
                reveal_strlit("c");
            }
            "c"
        },
        13 => {
            proof {
                reveal_strlit("d");
            }
            "d"
        },
        14 => {
            proof {
                reveal_strlit("e");
            }
            "e"
        },
        _ => {
            proof {
                reveal_strlit("f");
            }
            "f"
        },
    }
}

/// `0x` and `cp` in two lower-case hexadecimal digits.
fn hex_byte_text(cp: u8) -> (r: String)
    ensures
        r@ == hex_byte_chars(cp),
{
    proof {
        reveal_strlit("0x");
    }
    let mut s = String::from_str("0x");
    s.append(hex_digit_str(cp / 16));
    s.append(hex_digit_str(cp % 16));
    proof {
        assert(s@ =~= hex_byte_chars(cp));
    }
    s
}

/// How a code point is shown to a user: printable ASCII (32..127) as a
/// quoted character, anything else as a hex byte.
pub open spec fn char_display_chars(cp: u8) -> Seq<char> {
    if 32 <= cp < 127 {
        quoted_chars(cp)
    } else {
        hex_byte_chars(cp)
    }
}

/// Shows a code point: a quoted character when printable ASCII, otherwise
/// `0x` and two hex digits
pub fn char_display(cp: u8) -> (r: String)
    ensures
        r@ == char_display_chars(cp),
{
    if 32 <= cp && cp < 127 {
        quoted_text(cp)
    } else {
        hex_byte_text(cp)
    }
}

/// A code point as a key of a `widths = { … }` block: a character literal
/// when printable (the quote and the backslash escaped), otherwise a hex
/// code point.
pub open spec fn width_key_chars(cp: u8) -> Seq<char> {
    if cp == 39 {
        seq!['\'', '\\', '\'', '\'']
    } else if cp == 92 {
        seq!['\'', '\\', '\\', '\'']
    } else if 32 <= cp <= 126 {
        quoted_chars(cp)
    } else {
        hex_byte_chars(cp)
    }
}

/// Renders a code point as a `widths = { … }` key: a char literal when
/// printable, otherwise a hex code point.
pub fn width_key(cp: u8) -> (r: String)
    ensures
        r@ == width_key_chars(cp),
{
    if cp == 39 {
        proof {
            reveal_strlit("'\\''");
        }
        String::from_str("'\\''")
    } else if cp == 92 {
        proof {
            reveal_strlit("'\\\\'");
        }
        String::from_str("'\\\\'")
    } else if 32 <= cp && cp <= 126 {
        quoted_text(cp)
    } else {
        hex_byte_text(cp)
    }
}

/// The code point of glyph `idx`: the index itself in a full font, `idx +
/// 32` in a small one.
pub open spec fn code_point_of(idx: int, mode_byte: u8) -> int {
    if mode_byte == 1 {
        idx
    } else {
        idx + 32
    }
}

/// Code point of the glyph at `idx`
pub fn index_to_code_point(idx: usize, mode_byte: u8) -> (r: u8)
    requires
        idx < if mode_byte == 1 { GLYPH_COUNT_FULL } else { GLYPH_COUNT_PRINTABLE },
    ensures
        r == code_point_of(idx as int, mode_byte),
{
    if mode_byte == 1 {
        idx as u8
    } else {
        (idx + 32) as u8
    }
}

/// Message for a code point that a small font does not hold.
pub open spec fn out_of_range_chars(cp: u8) -> Seq<char> {
    "code point "@ + decimal_chars(cp as nat) + " is outside the small font range (32–126)"@
}

/// Glyph index of a code point: the code point itself in a full font; in a
/// small font `cp - 32` for printable ASCII (32..=126), an error otherwise.
pub open spec fn glyph_index_of(cp: u8, mode_byte: u8) -> Option<int> {
    if mode_byte == 1 {
        Some(cp as int)
    } else if 32 <= cp <= 126 {
        Some(cp - 32)
    } else {
        None
    }
}

/// Glyph index of a code point, or a message saying the small font does not
/// hold it
pub fn code_point_to_index(cp: u8, mode_byte: u8) -> (r: Result<usize, String>)
    ensures
        match r {
            Ok(idx) => glyph_index_of(cp, mode_byte) == Some(idx as int),
            Err(msg) => glyph_index_of(cp, mode_byte) is None && msg@ == out_of_range_chars(cp),
        },
{
    if mode_byte == 1 {
        Ok(cp as usize)
    } else if 32 <= cp && cp <= 126 {
        Ok((cp - 32) as usize)
    } else {
        let mut msg = String::from_str("code point ");
        let digits = decimal_text(cp as u64);
        msg.append(digits.as_str());
        msg.append(" is outside the small font range (32–126)");
        Err(msg)
    }
}

/// Why a font file cannot be read.
#[derive(Clone, Copy, Debug, PartialEq, Eq, Structural)]
pub enum FontFileError {
    /// Shorter than the 3 bytes of mode and cell size.
    TooShort,
    /// The mode byte is neither 0 (small) nor 1 (full).
    UnknownMode(u8),
    /// Shorter than the given number of bytes that the mode needs.
    TooShortFor(usize),
}

/// The first bytes of a font file: mode, cell size and the glyph count that
/// the mode gives.
#[derive(Clone, Copy, Debug, PartialEq, Eq, Structural)]
pub struct FontHeader {
    pub mode_byte: u8,
    pub cell_width: u8,
    pub cell_height: u8,
    /// 256 for a full font, 95 for a small one
    pub glyph_count: usize,
}

/// Glyph count of a font mode.
pub open spec fn glyph_count_of(mode_byte: u8) -> usize {
    if mode_byte == 1 {
        GLYPH_COUNT_FULL
    } else {
        GLYPH_COUNT_PRINTABLE
    }
}

/// The header that the first three bytes of a font file give.
pub open spec fn header_of(bytes: Seq<u8>) -> FontHeader {
    FontHeader { mode_byte: bytes[0], cell_width: bytes[1], cell_height: bytes[2], glyph_count: glyph_count_of(bytes[0]) }
}

/// Which check, if any, rejects a font file that must hold at least
/// `needed(mode)` bytes: too short for the header, unknown mode, too short
/// for the mode.
pub open spec fn file_error(bytes: Seq<u8>, needed_small: usize, needed_full: usize) -> Option<FontFileError> {
    if bytes.len() < 3 {
        Some(FontFileError::TooShort)
    } else if bytes[0] > 1 {
        Some(FontFileError::UnknownMode(bytes[0]))
    } else if bytes.len() < (if bytes[0] == 1 { needed_full } else { needed_small }) {
        Some(FontFileError::TooShortFor(if bytes[0] == 1 { needed_full } else { needed_small }))
    } else {
        None
    }
}

/// Reads the header of a font file that must hold at least `needed_small`
/// bytes (small font) or `needed_full` bytes (full font).
pub(crate) fn read_header(bytes: &[u8], needed_small: usize, needed_full: usize) -> (r: Result<FontHeader, FontFileError>)
    ensures
        match r {
            Ok(h) => file_error(bytes@, needed_small, needed_full) is None && h == header_of(bytes@),
            Err(e) => file_error(bytes@, needed_small, needed_full) == Some(e),
        },
{
    if bytes.len() < 3 {
        return Err(FontFileError::TooShort);
    }
    let mode_byte = bytes[0];
    let (glyph_count, needed): (usize, usize) = match mode_byte {
        1 => (GLYPH_COUNT_FULL, needed_full),
        0 => (GLYPH_COUNT_PRINTABLE, needed_small),
        _ => {
            return Err(FontFileError::UnknownMode(mode_byte));
        },
    };
    if bytes.len() < needed {
        return Err(FontFileError::TooShortFor(needed));
    }
    Ok(FontHeader { mode_byte, cell_width: bytes[1], cell_height: bytes[2], glyph_count })
}

/// Reads the header of a font file whose widths are to be shown or edited:
/// the file must hold the widths, `3 + glyph_count` bytes.
pub fn widths_header(bytes: &[u8]) -> (r: Result<FontHeader, FontFileError>)
    ensures
        match r {
            Ok(h) => file_error(bytes@, (3 + GLYPH_COUNT_PRINTABLE) as usize, (3 + GLYPH_COUNT_FULL) as usize) is None && h == header_of(
                bytes@,
            ),
            Err(e) => file_error(bytes@, (3 + GLYPH_COUNT_PRINTABLE) as usize, (3 + GLYPH_COUNT_FULL) as usize) == Some(e),
        },
{
    read_header(bytes, 3 + GLYPH_COUNT_PRINTABLE, 3 + GLYPH_COUNT_FULL)
}

/// The stored advance width of a code point, or the message for a code
/// point that a small font does not hold.
pub fn width_of(bytes: &[u8], header: FontHeader, cp: u8) -> (r: Result<u8, String>)
    requires
        header.mode_byte <= 1,
        bytes.len() >= 3 + glyph_count_of(header.mode_byte),
    ensures
        match r {
            Ok(w) => glyph_index_of(cp, header.mode_byte) matches Some(i) && w == bytes@[3 + i],
            Err(msg) => glyph_index_of(cp, header.mode_byte) is None && msg@ == out_of_range_chars(cp),
        },
{
    match code_point_to_index(cp, header.mode_byte) {
        Ok(idx) => Ok(bytes[3 + idx]),
        Err(msg) => Err(msg),
    }
}

/// The font file after the width edits, applied in order: each `(cp, w)`
/// sets the stored width of `cp`'s glyph to `w`; a code point without a
/// glyph (or past the end of the file) changes nothing.
pub open spec fn edited_widths(bytes: Seq<u8>, mode_byte: u8, sets: Seq<(u8, u8)>) -> Seq<u8>
    decreases sets.len(),
{
    if sets.len() == 0 {
        bytes
    } else {
        let prev = edited_widths(bytes, mode_byte, sets.drop_last());
        match glyph_index_of(sets.last().0, mode_byte) {
            Some(i) => if 3 + i < prev.len() {
                prev.update(3 + i, sets.last().1)
            } else {
                prev
            },
            None => prev,
        }
    }
}

/// Edits keep the length of the file.
pub proof fn lemma_edited_widths_len(bytes: Seq<u8>, mode_byte: u8, sets: Seq<(u8, u8)>)
    ensures
        edited_widths(bytes, mode_byte, sets).len() == bytes.len(),
    decreases sets.len(),
{
    if sets.len() > 0 {
        lemma_edited_widths_len(bytes, mode_byte, sets.drop_last());
    }
}

/// Applies width edits in order (see `edited_widths`); for each edit gives
/// the width it replaced, or the message for a code point that a small font
/// does not hold.
pub fn apply_width_edits(bytes: &mut Vec<u8>, header: FontHeader, sets: &[(u8, u8)]) -> (r: Vec<Result<u8, String>>)
    requires
        header.mode_byte <= 1,
        old(bytes).len() >= 3 + glyph_count_of(header.mode_byte),
    ensures
        final(bytes)@ == edited_widths(old(bytes)@, header.mode_byte, sets@),
        r.len() == sets.len(),
        forall|i: int|
            0 <= i < sets.len() ==> match #[trigger] r@[i] {
                Ok(w) => glyph_index_of(sets@[i].0, header.mode_byte) matches Some(g) && w == edited_widths(
                    old(bytes)@,
                    header.mode_byte,
                    sets@.subrange(0, i),
                )[3 + g],
                Err(msg) => glyph_index_of(sets@[i].0, header.mode_byte) is None && msg@ == out_of_range_chars(
                    sets@[i].0,
                ),
            },
{
    let ghost orig = bytes@;
    let mut outcomes: Vec<Result<u8, String>> = Vec::new();
    let mut k: usize = 0;
    while k < sets.len()
        invariant
            0 <= k <= sets.len(),
            header.mode_byte <= 1,
            orig.len() >= 3 + glyph_count_of(header.mode_byte),
            bytes@ == edited_widths(orig, header.mode_byte, sets@.subrange(0, k as int)),
            outcomes.len() == k,
            forall|i: int|
                0 <= i < k ==> match #[trigger] outcomes@[i] {
                    Ok(w) => glyph_index_of(sets@[i].0, header.mode_byte) matches Some(g) && w == edited_widths(
                        orig,
                        header.mode_byte,
                        sets@.subrange(0, i),
                    )[3 + g],
                    Err(msg) => glyph_index_of(sets@[i].0, header.mode_byte) is None && msg@ == out_of_range_chars(
                        sets@[i].0,
                    ),
                },
        decreases sets.len() - k,
    {
        let (cp, w) = sets[k];
        proof {
            lemma_edited_widths_len(orig, header.mode_byte, sets@.subrange(0, k as int));
            assert(sets@.subrange(0, k + 1).drop_last() =~= sets@.subrange(0, k as int));
            assert(sets@.subrange(0, k + 1).last() == (cp, w));
        }
        match code_point_to_index(cp, header.mode_byte) {
            Ok(idx) => {
                let old_width = bytes[3 + idx];
                bytes.set(3 + idx, w);
                outcomes.push(Ok(old_width));
            },
            Err(msg) => {
                outcomes.push(Err(msg));
            },
        }
        k = k + 1;
    }
    assert(sets@.subrange(0, sets@.len() as int) =~= sets@);
    outcomes
}

/// Why a character argument is refused.
#[derive(Clone, Copy, Debug, PartialEq, Eq, Structural)]
pub enum CharArgError {
    /// The argument is empty.
    Empty,
    /// The argument is neither one character nor a decimal or `0x` hex number.
    Invalid,
    /// The number is above 255.
    TooLarge,
}

/// Value of the digits of `s` in `base` (10 or 16), capped at 256; `None`
/// if a byte is not a digit.
pub open spec fn plain_digits(s: Seq<u8>, base: int) -> Option<int>
    decreases s.len(),
{
    if s.len() == 0 {
        Some(0)
    } else {
        match (plain_digits(s.drop_last(), base), crate::arg_tokens::hex_digit(s.last())) {
            (Some(v), Some(d)) => if d < base {
                Some(if v * base + d > 256 {
                    256
                } else {
                    v * base + d
                })
            } else {
                None
            },
            _ => None,
        }
    }
}

/// A code point from its digits: refused when not a number or above 255.
pub open spec fn number_arg(s: Seq<u8>, base: int) -> Result<u8, CharArgError> {
    if s.len() == 0 {
        Err(CharArgError::Invalid)
    } else {
        match plain_digits(s, base) {
            Some(v) => if v <= 255 {
                Ok(v as u8)
            } else {
                Err(CharArgError::TooLarge)
            },
            None => Err(CharArgError::Invalid),
        }
    }
}

/// The code point a character argument names: a single character stands for
/// itself, `0x` (or `0X`) starts a hexadecimal number, anything else is
/// decimal.
pub open spec fn char_arg_spec(s: Seq<u8>) -> Result<u8, CharArgError> {
    if s.len() == 0 {
        Err(CharArgError::Empty)
    } else if s.len() == 1 {
        Ok(s[0])
    } else if s[0] == 48 && (s[1] == 120 || s[1] == 88) {
        number_arg(s.skip(2), 16)
    } else {
        number_arg(s, 10)
    }
}

/// Parses a character argument (see `char_arg_spec`): an ASCII character,
/// a decimal code point, or a `0x` hex one
pub fn parse_char_arg(s: &str) -> (r: Result<u8, CharArgError>)
    ensures
        r == char_arg_spec(s.spec_bytes()),
{
    let b = s.as_bytes();
    if b.len() == 0 {
        return Err(CharArgError::Empty);
    }
    if b.len() == 1 {
        return Ok(b[0]);
    }
    let (start, base): (usize, u32) = if b[0] == 48 && (b[1] == 120 || b[1] == 88) {
        (2, 16)
    } else {
        (0, 10)
    };
    proof {
        if start == 2 {
            assert(b@.skip(2) =~= b@.subrange(2, b@.len() as int));
        } else {
            assert(b@ =~= b@.subrange(0, b@.len() as int));
        }
    }
    if start >= b.len() {
        return Err(CharArgError::Invalid);
    }
    let mut v: u32 = 0;
    let mut i = start;
    while i < b.len()
        invariant
            start <= i <= b.len(),
            start < b.len(),
            base == 10 || base == 16,
            b@ == s.spec_bytes(),
            char_arg_spec(b@) == number_arg(b@.subrange(start as int, b@.len() as int), base as int),
            plain_digits(b@.subrange(start as int, i as int), base as int) == Some(v as int),
            v <= 256,
        decreases b.len() - i,
    {
        let ghost cur = b@.subrange(start as int, i + 1);
        proof {
            assert(cur.drop_last() =~= b@.subrange(start as int, i as int));
        }
        let c = b[i];
        let d: u32 = if 48 <= c && c <= 57 {
            (c - 48) as u32
        } else if 97 <= c && c <= 102 {
            (c - 87) as u32
        } else if 65 <= c && c <= 70 {
            (c - 55) as u32
        } else {
            proof {
                assert(crate::arg_tokens::hex_digit(cur.last()) is None);
                lemma_plain_digits_none(b@, start as int, i + 1, b@.len() as int, base as int);
            }
            return Err(CharArgError::Invalid);
        };
        proof {
            assert(crate::arg_tokens::hex_digit(cur.last()) == Some(d as int));
        }
        if d >= base {
            proof {
                lemma_plain_digits_none(b@, start as int, i + 1, b@.len() as int, base as int);
            }
            return Err(CharArgError::Invalid);
        }
        let t = v * base + d;
        v = if t > 256 {
            256
        } else {
            t
        };
        i = i + 1;
    }
    if v <= 255 {
        Ok(v as u8)
    } else {
        Err(CharArgError::TooLarge)
    }
}

/// Digits that fail to parse keep failing as more bytes follow.
proof fn lemma_plain_digits_none(s: Seq<u8>, start: int, k: int, end: int, base: int)
    requires
        0 <= start <= k <= end <= s.len(),
        plain_digits(s.subrange(start, k), base) is None,
    ensures
        plain_digits(s.subrange(start, end), base) is None,
    decreases end - k,
{
    if k < end {
        assert(s.subrange(start, k + 1).drop_last() =~= s.subrange(start, k));
        lemma_plain_digits_none(s, start, k + 1, end, base);
    }
}
} // verus!

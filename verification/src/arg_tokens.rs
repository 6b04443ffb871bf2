use vstd::prelude::*;

verus! {

/// Largest integer value a token records: anything at or above it is too
/// large for every target type of the arguments.
pub const INT_CAP: u64 = 0x1_0000_0000;

/// Value a character token records for a character outside ASCII.
pub const NON_ASCII: u64 = 256;

/// What a token is.
#[derive(Clone, Copy, Debug, PartialEq, Eq, Structural)]
pub enum TokKind {
    Ident,
    Int,
    Str,
    Char,
    Punct,
}

/// A token of macro argument text: its kind, the span of source bytes it
/// was read from, and its value (an integer's value capped at `INT_CAP`, a
/// character's byte or `NON_ASCII`, a punctuation byte; 0 otherwise).
#[derive(Clone, Copy, Debug, PartialEq, Eq, Structural)]
pub struct Tok {
    pub kind: TokKind,
    pub start: usize,
    pub end: usize,
    pub val: u64,
}

/// Why the argument text was refused.
#[derive(Clone, Copy, Debug, PartialEq, Eq, Structural)]
pub enum ArgsError {
    /// A string, character or integer literal is malformed or unterminated.
    InvalidLiteral,
    /// Cell dimensions are not passed as bare numbers: omit them for a
    /// 16x6 small-font sheet, or write `full` or `size(cols, rows)`.
    BareNumber,
    /// `full` and `size` both set the grid; use one.
    GridTwice,
    /// Expected `size(cols, rows)`.
    ExpectedSize,
    /// Only ASCII characters are supported as width keys.
    NonAsciiChar,
    /// Band 0 is the transparent background and cannot be recolored.
    BackgroundBand,
    /// Recolor bands are 0-15 (luma >> 4).
    BandOutOfRange,
    /// An integer does not fit its target type.
    NumberTooLarge,
    /// An argument name other than `full`, `size`, `monospace`, `widths`,
    /// `bold`, `recolor` or `debug`; its span in the source.
    UnknownArgument(usize, usize),
    /// Tokens are left after the last argument.
    UnexpectedTokens,
    /// Something else was expected here.
    Expected(Expect),
}

/// What was expected where the text had something else.
#[derive(Clone, Copy, Debug, PartialEq, Eq, Structural)]
pub enum Expect {
    Ident,
    Comma,
    StrLit,
    IntLit,
    Equals,
    Parens,
    Braces,
    CloseBrace,
}

/// Whitespace between tokens.
pub open spec fn is_space(b: u8) -> bool {
    b == 32 || b == 9 || b == 10 || b == 13
}

/// A decimal digit.
pub open spec fn is_digit(b: u8) -> bool {
    48 <= b <= 57
}

/// A byte that can start an identifier.
pub open spec fn is_ident_start(b: u8) -> bool {
    (65 <= b <= 90) || (97 <= b <= 122) || b == 95
}

/// A byte that can continue an identifier or a number.
pub open spec fn is_word_byte(b: u8) -> bool {
    is_ident_start(b) || is_digit(b)
}

/// Value of a hexadecimal digit.
pub open spec fn hex_digit(b: u8) -> Option<int> {
    if is_digit(b) {
        Some(b - 48)
    } else if 97 <= b <= 102 {
        Some(b - 87)
    } else if 65 <= b <= 70 {
        Some(b - 55)
    } else {
        None
    }
}

/// First position at or after `i` that is not whitespace.
pub open spec fn skip_space(s: Seq<u8>, i: int) -> int
    decreases s.len() - i,
{
    if 0 <= i < s.len() && is_space(s[i]) {
        skip_space(s, i + 1)
    } else {
        i
    }
}

/// End of the run of word bytes from `i` on.
pub open spec fn word_end(s: Seq<u8>, i: int) -> int
    decreases s.len() - i,
{
    if 0 <= i < s.len() && is_word_byte(s[i]) {
        word_end(s, i + 1)
    } else {
        i
    }
}

/// `v * base + d`, capped at `INT_CAP`.
pub open spec fn capped(v: int, base: int, d: int) -> int {
    if v * base + d >= INT_CAP {
        INT_CAP as int
    } else {
        v * base + d
    }
}

/// Value of digits in `base` (10 or 16) with `_` separators, capped at
/// `INT_CAP`; `None` if a byte is neither.
pub open spec fn digits_value(s: Seq<u8>, base: int) -> Option<int>
    decreases s.len(),
{
    if s.len() == 0 {
        Some(0)
    } else {
        match digits_value(s.drop_last(), base) {
            None => None,
            Some(v) => {
                let b = s.last();
                if b == 95 {
                    Some(v)
                } else {
                    match hex_digit(b) {
                        Some(d) => if d < base {
                            Some(capped(v, base, d))
                        } else {
                            None
                        },
                        None => None,
                    }
                }
            },
        }
    }
}

/// `b` is a digit in `base`.
pub open spec fn is_digit_in(b: u8, base: int) -> bool {
    match hex_digit(b) {
        Some(d) => d < base,
        None => false,
    }
}

/// Whether `s` holds a digit in `base`.
pub open spec fn has_digit(s: Seq<u8>, base: int) -> bool {
    exists|j: int| 0 <= j < s.len() && #[trigger] is_digit_in(s[j], base)
}

/// Base of an integer literal, by its prefix: 16 after `0x`, 8 after `0o`,
/// 2 after `0b`, else 10.
pub open spec fn literal_base(s: Seq<u8>) -> int {
    if s.len() >= 2 && s[0] == 48 && s[1] == 120 {
        16
    } else if s.len() >= 2 && s[0] == 48 && s[1] == 111 {
        8
    } else if s.len() >= 2 && s[0] == 48 && s[1] == 98 {
        2
    } else {
        10
    }
}

/// Length of the base prefix of an integer literal.
pub open spec fn prefix_len(s: Seq<u8>) -> int {
    if literal_base(s) == 10 {
        0
    } else {
        2
    }
}

/// End of the run of digits in `base` and `_` separators from `i` on.
pub open spec fn digit_run_end(s: Seq<u8>, i: int, base: int) -> int
    decreases s.len() - i,
{
    if 0 <= i < s.len() && (s[i] == 95 || is_digit_in(s[i], base)) {
        digit_run_end(s, i + 1, base)
    } else {
        i
    }
}

/// An integer type suffix (`u8` to `u128`, `usize`, `i8` to `i128`,
/// `isize`), or none.
pub open spec fn int_suffix_ok(s: Seq<u8>) -> bool {
    ||| s.len() == 0
    ||| s == seq![117u8, 56]
    ||| s == seq![117u8, 49, 54]
    ||| s == seq![117u8, 51, 50]
    ||| s == seq![117u8, 54, 52]
    ||| s == seq![117u8, 49, 50, 56]
    ||| s == seq![117u8, 115, 105, 122, 101]
    ||| s == seq![105u8, 56]
    ||| s == seq![105u8, 49, 54]
    ||| s == seq![105u8, 51, 50]
    ||| s == seq![105u8, 54, 52]
    ||| s == seq![105u8, 49, 50, 56]
    ||| s == seq![105u8, 115, 105, 122, 101]
}

/// Value of an integer literal: digits in its base with `_` separators, at
/// least one of them, then an optional integer type suffix.
pub open spec fn int_literal_value(s: Seq<u8>) -> Option<int> {
    let base = literal_base(s);
    let p = prefix_len(s);
    let e = digit_run_end(s, p, base);
    if has_digit(s.subrange(p, e), base) && int_suffix_ok(s.subrange(e, s.len() as int)) {
        digits_value(s.subrange(p, e), base)
    } else {
        None
    }
}

/// The byte an escape `\e` stands for.
pub open spec fn escape_byte(e: u8) -> Option<u8> {
    if e == 110 {
        Some(10u8)
    } else if e == 116 {
        Some(9u8)
    } else if e == 114 {
        Some(13u8)
    } else if e == 48 {
        Some(0u8)
    } else if e == 92 || e == 39 || e == 34 {
        Some(e)
    } else {
        None
    }
}

/// Contents of a string literal's body with its escapes resolved; `None`
/// for an unknown escape.
pub open spec fn unescape(s: Seq<u8>) -> Option<Seq<u8>>
    decreases s.len(),
{
    if s.len() == 0 {
        Some(Seq::empty())
    } else if s[0] == 92 {
        if s.len() < 2 {
            None
        } else {
            match (escape_byte(s[1]), unescape(s.skip(2))) {
                (Some(b), Some(r)) => Some(seq![b] + r),
                _ => None,
            }
        }
    } else {
        match unescape(s.skip(1)) {
            Some(r) => Some(seq![s[0]] + r),
            None => None,
        }
    }
}

/// Position of the closing quote of a string literal whose body starts at
/// `i`: an escape skips the byte after the backslash.
pub open spec fn string_close(s: Seq<u8>, i: int) -> Option<int>
    decreases s.len() - i,
{
    if i < 0 || i >= s.len() {
        None
    } else if s[i] == 34 {
        Some(i)
    } else if s[i] == 92 {
        if i + 1 < s.len() {
            string_close(s, i + 2)
        } else {
            None
        }
    } else {
        string_close(s, i + 1)
    }
}

/// End of the UTF-8 continuation bytes from `i` on.
pub open spec fn continuation_end(s: Seq<u8>, i: int) -> int
    decreases s.len() - i,
{
    if 0 <= i < s.len() && 0x80 <= s[i] <= 0xBF {
        continuation_end(s, i + 1)
    } else {
        i
    }
}

/// Value and closing-quote position of a character literal whose body
/// starts at `i`.
pub open spec fn char_body(s: Seq<u8>, i: int) -> Option<(u64, int)> {
    if i + 1 >= s.len() || i < 0 {
        None
    } else if s[i] == 92 {
        match escape_byte(s[i + 1]) {
            Some(b) => if i + 2 < s.len() && s[i + 2] == 39 {
                Some((b as u64, i + 2))
            } else {
                None
            },
            None => None,
        }
    } else if s[i] == 39 {
        None
    } else if s[i] < 0x80 {
        if s[i + 1] == 39 {
            Some((s[i] as u64, i + 1))
        } else {
            None
        }
    } else {
        let j = continuation_end(s, i + 1);
        if j < s.len() && s[j] == 39 {
            Some((NON_ASCII, j))
        } else {
            None
        }
    }
}

/// The token that starts at `i`, a non-space byte, and where the next one
/// may start.
pub open spec fn token_at(s: Seq<u8>, i: int) -> Result<(Tok, int), ArgsError> {
    let b = s[i];
    if is_ident_start(b) {
        let e = word_end(s, i);
        Ok((Tok { kind: TokKind::Ident, start: i as usize, end: e as usize, val: 0 }, e))
    } else if is_digit(b) {
        let e = word_end(s, i);
        match int_literal_value(s.subrange(i, e)) {
            Some(v) => Ok((Tok { kind: TokKind::Int, start: i as usize, end: e as usize, val: v as u64 }, e)),
            None => Err(ArgsError::InvalidLiteral),
        }
    } else if b == 34 {
        match string_close(s, i + 1) {
            Some(c) => if unescape(s.subrange(i + 1, c)) is Some {
                Ok((Tok { kind: TokKind::Str, start: i as usize, end: (c + 1) as usize, val: 0 }, c + 1))
            } else {
                Err(ArgsError::InvalidLiteral)
            },
            None => Err(ArgsError::InvalidLiteral),
        }
    } else if b == 39 {
        match char_body(s, i + 1) {
            Some((v, c)) => Ok((Tok { kind: TokKind::Char, start: i as usize, end: (c + 1) as usize, val: v }, c + 1)),
            None => Err(ArgsError::InvalidLiteral),
        }
    } else {
        Ok((Tok { kind: TokKind::Punct, start: i as usize, end: (i + 1) as usize, val: b as u64 }, i + 1))
    }
}

/// The tokens of `s` from `i` on.
pub open spec fn lex_from(s: Seq<u8>, i: int) -> Result<Seq<Tok>, ArgsError>
    decreases s.len() - i,
{
    let j = skip_space(s, i);
    if j >= s.len() || j < i || i < 0 {
        Ok(Seq::empty())
    } else {
        match token_at(s, j) {
            Err(e) => Err(e),
            Ok((t, k)) => if j < k <= s.len() {
                match lex_from(s, k) {
                    Ok(r) => Ok(seq![t] + r),
                    Err(e) => Err(e),
                }
            } else {
                Err(ArgsError::InvalidLiteral)
            },
        }
    }
}

/// `done` followed by the outcome of the rest.
pub open spec fn prepend_tokens(done: Seq<Tok>, rest: Result<Seq<Tok>, ArgsError>) -> Result<Seq<Tok>, ArgsError> {
    match rest {
        Ok(r) => Ok(done + r),
        Err(e) => Err(e),
    }
}

/// Skipping whitespace stops inside the text, at a byte that is not whitespace.
pub proof fn lemma_skip_space_bounds(s: Seq<u8>, i: int)
    requires
        0 <= i <= s.len(),
    ensures
        i <= skip_space(s, i) <= s.len(),
        forall|k: int| i <= k < skip_space(s, i) ==> is_space(#[trigger] s[k]),
        skip_space(s, i) < s.len() ==> !is_space(s[skip_space(s, i)]),
    decreases s.len() - i,
{
    if i < s.len() && is_space(s[i]) {
        lemma_skip_space_bounds(s, i + 1);
    }
}

/// A run of word bytes ends inside the text, after its start.
pub proof fn lemma_word_end_bounds(s: Seq<u8>, i: int)
    requires
        0 <= i <= s.len(),
    ensures
        i <= word_end(s, i) <= s.len(),
        forall|k: int| i <= k < word_end(s, i) ==> is_word_byte(#[trigger] s[k]),
    decreases s.len() - i,
{
    if i < s.len() && is_word_byte(s[i]) {
        lemma_word_end_bounds(s, i + 1);
    }
}

fn skip_space_exec(s: &[u8], i: usize) -> (r: usize)
    requires
        i <= s.len(),
    ensures
        r == skip_space(s@, i as int),
        i <= r <= s.len(),
{
    let mut j = i;
    while j < s.len() && (s[j] == 32 || s[j] == 9 || s[j] == 10 || s[j] == 13)
        invariant
            i <= j <= s.len(),
            skip_space(s@, i as int) == skip_space(s@, j as int),
        decreases s.len() - j,
    {
        j = j + 1;
    }
    j
}

fn word_end_exec(s: &[u8], i: usize) -> (r: usize)
    requires
        i <= s.len(),
    ensures
        r == word_end(s@, i as int),
        i <= r <= s.len(),
{
    let mut j = i;
    while j < s.len() && ((65 <= s[j] && s[j] <= 90) || (97 <= s[j] && s[j] <= 122) || s[j] == 95 || (48 <= s[j] && s[j]
        <= 57))
        invariant
            i <= j <= s.len(),
            word_end(s@, i as int) == word_end(s@, j as int),
        decreases s.len() - j,
    {
        j = j + 1;
    }
    j
}

fn hex_digit_exec(b: u8) -> (r: Option<u64>)
    ensures
        match hex_digit(b) {
            Some(d) => r == Some(d as u64),
            None => r is None,
        },
{
    if 48 <= b && b <= 57 {
        Some((b - 48) as u64)
    } else if 97 <= b && b <= 102 {
        Some((b - 87) as u64)
    } else if 65 <= b && b <= 70 {
        Some((b - 55) as u64)
    } else {
        None
    }
}

/// Value of `s[start..end]` as digits in `base` (see `digits_value`).
fn digits_value_exec(s: &[u8], start: usize, end: usize, base: u64) -> (r: Option<u64>)
    requires
        start <= end <= s.len(),
        2 <= base <= 16,
    ensures
        match digits_value(s@.subrange(start as int, end as int), base as int) {
            Some(v) => r == Some(v as u64),
            None => r is None,
        },
{
    let mut v: u64 = 0;
    let mut i = start;
    while i < end
        invariant
            start <= i <= end <= s.len(),
            2 <= base <= 16,
            digits_value(s@.subrange(start as int, i as int), base as int) == Some(v as int),
            v <= INT_CAP,
        decreases end - i,
    {
        let b = s[i];
        let ghost cur = s@.subrange(start as int, i + 1);
        proof {
            assert(cur.drop_last() =~= s@.subrange(start as int, i as int));
            assert(cur.last() == b);
        }
        if b != 95 {
            let d = match hex_digit_exec(b) {
                Some(d) => d,
                None => {
                    proof {
                        lemma_digits_none_extends(s@, start as int, i + 1, end as int, base as int);
                    }
                    return None;
                },
            };
            if d >= base {
                proof {
                    lemma_digits_none_extends(s@, start as int, i + 1, end as int, base as int);
                }
                return None;
            }
            assert(v * base <= INT_CAP * 16) by (nonlinear_arith)
                requires
                    v <= INT_CAP,
                    base <= 16,
            ;
            let t = v * base + d;
            v = if t >= INT_CAP {
                INT_CAP
            } else {
                t
            };
        }
        i = i + 1;
    }
    Some(v)
}

/// Whether `s[start..end]` holds a digit in `base`.
fn has_digit_exec(s: &[u8], start: usize, end: usize, base: u64) -> (r: bool)
    requires
        start <= end <= s.len(),
    ensures
        r == has_digit(s@.subrange(start as int, end as int), base as int),
{
    let ghost sub = s@.subrange(start as int, end as int);
    let mut i = start;
    while i < end
        invariant
            start <= i <= end <= s.len(),
            sub == s@.subrange(start as int, end as int),
            forall|j: int| 0 <= j < i - start ==> !#[trigger] is_digit_in(sub[j], base as int),
        decreases end - i,
    {
        match hex_digit_exec(s[i]) {
            Some(d) => {
                if d < base {
                    proof {
                        assert(is_digit_in(sub[i - start], base as int));
                    }
                    return true;
                }
            },
            None => {},
        }
        proof {
            assert(sub[i - start] == s@[i as int]);
        }
        i = i + 1;
    }
    false
}

/// Digits that fail to parse keep failing as more bytes follow.
proof fn lemma_digits_none_extends(s: Seq<u8>, start: int, k: int, end: int, base: int)
    requires
        0 <= start <= k <= end <= s.len(),
        digits_value(s.subrange(start, k), base) is None,
    ensures
        digits_value(s.subrange(start, end), base) is None,
    decreases end - k,
{
    if k < end {
        let nxt = s.subrange(start, k + 1);
        assert(nxt.drop_last() =~= s.subrange(start, k));
        lemma_digits_none_extends(s, start, k + 1, end, base);
    }
}

/// `done` followed by what unescaping the rest gives.
pub open spec fn prepend_bytes(done: Seq<u8>, rest: Option<Seq<u8>>) -> Option<Seq<u8>> {
    match rest {
        Some(r) => Some(done + r),
        None => None,
    }
}

fn escape_byte_exec(e: u8) -> (r: Option<u8>)
    ensures
        r == escape_byte(e),
{
    if e == 110 {
        Some(10u8)
    } else if e == 116 {
        Some(9u8)
    } else if e == 114 {
        Some(13u8)
    } else if e == 48 {
        Some(0u8)
    } else if e == 92 || e == 39 || e == 34 {
        Some(e)
    } else {
        None
    }
}

/// The body `s[start..end]` of a string literal with its escapes resolved
/// (see `unescape`).
pub fn unescape_exec(s: &[u8], start: usize, end: usize) -> (r: Option<Vec<u8>>)
    requires
        start <= end <= s.len(),
    ensures
        match unescape(s@.subrange(start as int, end as int)) {
            Some(v) => r matches Some(out) && out@ == v,
            None => r is None,
        },
{
    let mut out: Vec<u8> = Vec::new();
    let mut i = start;
    while i < end
        invariant
            start <= i <= end <= s.len(),
            unescape(s@.subrange(start as int, end as int)) == prepend_bytes(
                out@,
                unescape(s@.subrange(i as int, end as int)),
            ),
        decreases end - i,
    {
        let ghost sub = s@.subrange(i as int, end as int);
        if s[i] == 92 {
            if i + 1 >= end {
                return None;
            }
            proof {
                assert(sub.skip(2) =~= s@.subrange(i + 2, end as int));
            }
            match escape_byte_exec(s[i + 1]) {
                Some(b) => {
                    proof {
                        assert(out@.push(b) + unescape(s@.subrange(i + 2, end as int)).unwrap_or(Seq::empty()) =~= out@ + (
                        seq![b] + unescape(s@.subrange(i + 2, end as int)).unwrap_or(Seq::empty())));
                    }
                    out.push(b);
                    i = i + 2;
                },
                None => {
                    return None;
                },
            }
        } else {
            proof {
                assert(sub.skip(1) =~= s@.subrange(i + 1, end as int));
                assert(out@.push(s@[i as int]) + unescape(s@.subrange(i + 1, end as int)).unwrap_or(Seq::empty()) =~= out@ + (
                seq![s@[i as int]] + unescape(s@.subrange(i + 1, end as int)).unwrap_or(Seq::empty())));
            }
            out.push(s[i]);
            i = i + 1;
        }
    }
    proof {
        assert(out@ + Seq::<u8>::empty() =~= out@);
    }
    Some(out)
}

fn string_close_exec(s: &[u8], i: usize) -> (r: Option<usize>)
    requires
        i <= s.len(),
    ensures
        match string_close(s@, i as int) {
            Some(c) => r == Some(c as usize) && i <= c < s.len(),
            None => r is None,
        },
{
    proof {
        lemma_string_close_bound(s@, i as int);
    }
    let mut j = i;
    while j < s.len()
        invariant
            i <= j <= s.len() + 1,
            string_close(s@, i as int) == string_close(s@, j as int),
            string_close(s@, i as int) matches Some(c) ==> i <= c < s.len(),
        decreases s.len() + 1 - j,
    {
        if s[j] == 34 {
            return Some(j);
        } else if s[j] == 92 {
            if j + 1 < s.len() {
                j = j + 2;
            } else {
                return None;
            }
        } else {
            j = j + 1;
        }
    }
    None
}

/// A string literal closes inside the text, at or after its body's start.
pub proof fn lemma_string_close_bound(s: Seq<u8>, i: int)
    ensures
        string_close(s, i) matches Some(c) ==> i <= c < s.len(),
    decreases s.len() - i,
{
    if 0 <= i < s.len() && s[i] != 34 {
        if s[i] == 92 {
            if i + 1 < s.len() {
                lemma_string_close_bound(s, i + 2);
            }
        } else {
            lemma_string_close_bound(s, i + 1);
        }
    }
}

/// A run of continuation bytes ends inside the text, after its start.
pub proof fn lemma_continuation_end_bounds(s: Seq<u8>, i: int)
    requires
        0 <= i <= s.len(),
    ensures
        i <= continuation_end(s, i) <= s.len(),
    decreases s.len() - i,
{
    if i < s.len() && 0x80 <= s[i] <= 0xBF {
        lemma_continuation_end_bounds(s, i + 1);
    }
}

fn continuation_end_exec(s: &[u8], i: usize) -> (r: usize)
    requires
        i <= s.len(),
    ensures
        r == continuation_end(s@, i as int),
        i <= r <= s.len(),
{
    let mut j = i;
    while j < s.len() && 0x80 <= s[j] && s[j] <= 0xBF
        invariant
            i <= j <= s.len(),
            continuation_end(s@, i as int) == continuation_end(s@, j as int),
        decreases s.len() - j,
    {
        j = j + 1;
    }
    j
}

fn char_body_exec(s: &[u8], i: usize) -> (r: Option<(u64, usize)>)
    requires
        i <= s.len(),
    ensures
        match char_body(s@, i as int) {
            Some((v, c)) => r == Some((v, c as usize)) && i < c < s.len(),
            None => r is None,
        },
{
    if s.len() - i <= 1 {
        None
    } else if s[i] == 92 {
        match escape_byte_exec(s[i + 1]) {
            Some(b) => if i + 2 < s.len() && s[i + 2] == 39 {
                Some((b as u64, i + 2))
            } else {
                None
            },
            None => None,
        }
    } else if s[i] == 39 {
        None
    } else if s[i] < 0x80 {
        if s[i + 1] == 39 {
            Some((s[i] as u64, i + 1))
        } else {
            None
        }
    } else {
        let j = continuation_end_exec(s, i + 1);
        if j < s.len() && s[j] == 39 {
            Some((NON_ASCII, j))
        } else {
            None
        }
    }
}

fn int_literal_exec(s: &[u8], start: usize, end: usize) -> (r: Option<u64>)
    requires
        start <= end <= s.len(),
    ensures
        match int_literal_value(s@.subrange(start as int, end as int)) {
            Some(v) => r == Some(v as u64) && v <= INT_CAP,
            None => r is None,
        },
{
    let ghost sub = s@.subrange(start as int, end as int);
    let (base, p): (u64, usize) = if end - start >= 2 && s[start] == 48 && s[start + 1] == 120 {
        (16, 2)
    } else if end - start >= 2 && s[start] == 48 && s[start + 1] == 111 {
        (8, 2)
    } else if end - start >= 2 && s[start] == 48 && s[start + 1] == 98 {
        (2, 2)
    } else {
        (10, 0)
    };
    let mut e = start + p;
    while e < end && (s[e] == 95 || is_digit_in_exec(s[e], base))
        invariant
            start + p <= e <= end <= s.len(),
            base == literal_base(sub),
            p == prefix_len(sub),
            sub == s@.subrange(start as int, end as int),
            digit_run_end(sub, p as int, base as int) == digit_run_end(sub, e - start, base as int),
        decreases end - e,
    {
        proof {
            assert(sub[e - start] == s@[e as int]);
        }
        e = e + 1;
    }
    proof {
        if e < end {
            assert(sub[e - start] == s@[e as int]);
        }
        assert(digit_run_end(sub, e - start, base as int) == e - start);
        assert(sub.subrange(p as int, e - start) =~= s@.subrange(start + p, e as int));
        assert(sub.subrange(e - start, sub.len() as int) =~= s@.subrange(e as int, end as int));
        lemma_digits_value_cap(s@.subrange(start + p, e as int), base as int);
    }
    if !has_digit_exec(s, start + p, e, base) {
        return None;
    }
    if !int_suffix_exec(s, e, end) {
        return None;
    }
    digits_value_exec(s, start + p, e, base)
}

/// Whether `b` is a digit in `base`.
fn is_digit_in_exec(b: u8, base: u64) -> (r: bool)
    ensures
        r == is_digit_in(b, base as int),
{
    match hex_digit_exec(b) {
        Some(d) => d < base,
        None => false,
    }
}

/// Whether `s[start..end]` spells `lit`.
fn bytes_are(s: &[u8], start: usize, end: usize, lit: &[u8]) -> (r: bool)
    requires
        start <= end <= s.len(),
    ensures
        r == (s@.subrange(start as int, end as int) == lit@),
{
    if end - start != lit.len() {
        proof {
            assert(s@.subrange(start as int, end as int).len() != lit@.len());
        }
        return false;
    }
    let mut k: usize = 0;
    while k < lit.len()
        invariant
            start <= end <= s.len(),
            end - start == lit.len(),
            0 <= k <= lit.len(),
            forall|j: int| 0 <= j < k ==> s@[start + j] == #[trigger] lit@[j],
        decreases lit.len() - k,
    {
        if s[start + k] != lit[k] {
            proof {
                assert(s@.subrange(start as int, end as int)[k as int] != lit@[k as int]);
            }
            return false;
        }
        k = k + 1;
    }
    proof {
        assert(s@.subrange(start as int, end as int) =~= lit@);
    }
    true
}

/// Whether `s[start..end]` is an integer type suffix or empty.
fn int_suffix_exec(s: &[u8], start: usize, end: usize) -> (r: bool)
    requires
        start <= end <= s.len(),
    ensures
        r == int_suffix_ok(s@.subrange(start as int, end as int)),
{
    if start == end {
        return true;
    }
    let w: &[u8] = &[117u8, 56];
    proof {
        assert(w@ =~= seq![117u8, 56]);
    }
    if bytes_are(s, start, end, w) {
        return true;
    }
    let w: &[u8] = &[117u8, 49, 54];
    proof {
        assert(w@ =~= seq![117u8, 49, 54]);
    }
    if bytes_are(s, start, end, w) {
        return true;
    }
    let w: &[u8] = &[117u8, 51, 50];
    proof {
        assert(w@ =~= seq![117u8, 51, 50]);
    }
    if bytes_are(s, start, end, w) {
        return true;
    }
    let w: &[u8] = &[117u8, 54, 52];
    proof {
        assert(w@ =~= seq![117u8, 54, 52]);
    }
    if bytes_are(s, start, end, w) {
        return true;
    }
    let w: &[u8] = &[117u8, 49, 50, 56];
    proof {
        assert(w@ =~= seq![117u8, 49, 50, 56]);
    }
    if bytes_are(s, start, end, w) {
        return true;
    }
    let w: &[u8] = &[117u8, 115, 105, 122, 101];
    proof {
        assert(w@ =~= seq![117u8, 115, 105, 122, 101]);
    }
    if bytes_are(s, start, end, w) {
        return true;
    }
    let w: &[u8] = &[105u8, 56];
    proof {
        assert(w@ =~= seq![105u8, 56]);
    }
    if bytes_are(s, start, end, w) {
        return true;
    }
    let w: &[u8] = &[105u8, 49, 54];
    proof {
        assert(w@ =~= seq![105u8, 49, 54]);
    }
    if bytes_are(s, start, end, w) {
        return true;
    }
    let w: &[u8] = &[105u8, 51, 50];
    proof {
        assert(w@ =~= seq![105u8, 51, 50]);
    }
    if bytes_are(s, start, end, w) {
        return true;
    }
    let w: &[u8] = &[105u8, 54, 52];
    proof {
        assert(w@ =~= seq![105u8, 54, 52]);
    }
    if bytes_are(s, start, end, w) {
        return true;
    }
    let w: &[u8] = &[105u8, 49, 50, 56];
    proof {
        assert(w@ =~= seq![105u8, 49, 50, 56]);
    }
    if bytes_are(s, start, end, w) {
        return true;
    }
    let w: &[u8] = &[105u8, 115, 105, 122, 101];
    proof {
        assert(w@ =~= seq![105u8, 115, 105, 122, 101]);
    }
    if bytes_are(s, start, end, w) {
        return true;
    }
    proof {
        assert(s@.subrange(start as int, end as int).len() != 0);
    }
    false
}

proof fn lemma_digits_value_cap(s: Seq<u8>, base: int)
    requires
        2 <= base <= 16,
    ensures
        digits_value(s, base) matches Some(v) ==> 0 <= v <= INT_CAP,
    decreases s.len(),
{
    if s.len() > 0 {
        lemma_digits_value_cap(s.drop_last(), base);
    }
}

/// The token that starts at `i`, a non-space byte (see `token_at`).
fn token_at_exec(s: &[u8], i: usize) -> (r: Result<(Tok, usize), ArgsError>)
    requires
        i < s.len(),
    ensures
        match token_at(s@, i as int) {
            Ok((t, k)) => r == Ok::<(Tok, usize), ArgsError>((t, k as usize)) && i < k <= s.len(),
            Err(e) => r == Err::<(Tok, usize), ArgsError>(e),
        },
{
    let b = s[i];
    if (65 <= b && b <= 90) || (97 <= b && b <= 122) || b == 95 {
        let e = word_end_exec(s, i);
        proof {
            lemma_word_end_bounds(s@, i + 1);
        }
        Ok((Tok { kind: TokKind::Ident, start: i, end: e, val: 0 }, e))
    } else if 48 <= b && b <= 57 {
        let e = word_end_exec(s, i);
        proof {
            lemma_word_end_bounds(s@, i + 1);
        }
        match int_literal_exec(s, i, e) {
            Some(v) => Ok((Tok { kind: TokKind::Int, start: i, end: e, val: v }, e)),
            None => Err(ArgsError::InvalidLiteral),
        }
    } else if b == 34 {
        match string_close_exec(s, i + 1) {
            Some(c) => {
                if unescape_exec(s, i + 1, c).is_some() {
                    Ok((Tok { kind: TokKind::Str, start: i, end: c + 1, val: 0 }, c + 1))
                } else {
                    Err(ArgsError::InvalidLiteral)
                }
            },
            None => Err(ArgsError::InvalidLiteral),
        }
    } else if b == 39 {
        match char_body_exec(s, i + 1) {
            Some((v, c)) => Ok((Tok { kind: TokKind::Char, start: i, end: c + 1, val: v }, c + 1)),
            None => Err(ArgsError::InvalidLiteral),
        }
    } else {
        Ok((Tok { kind: TokKind::Punct, start: i, end: i + 1, val: b as u64 }, i + 1))
    }
}

/// Splits macro argument text into tokens (see `lex_from`): identifiers,
/// integer, string and character literals, and single punctuation bytes,
/// with whitespace between them dropped.
pub fn tokenize(src: &[u8]) -> (r: Result<Vec<Tok>, ArgsError>)
    ensures
        match lex_from(src@, 0) {
            Ok(ts) => r matches Ok(v) && v@ == ts,
            Err(e) => r == Err::<Vec<Tok>, ArgsError>(e),
        },
{
    let mut toks: Vec<Tok> = Vec::new();
    let mut i: usize = 0;
    loop
        invariant
            i <= src.len(),
            lex_from(src@, 0) == prepend_tokens(toks@, lex_from(src@, i as int)),
        decreases src.len() - i,
    {
        let j = skip_space_exec(src, i);
        if j >= src.len() {
            proof {
                assert(toks@ + Seq::<Tok>::empty() =~= toks@);
            }
            return Ok(toks);
        }
        match token_at_exec(src, j) {
            Err(e) => {
                return Err(e);
            },
            Ok((t, k)) => {
                proof {
                    let rest = lex_from(src@, k as int);
                    if rest is Ok {
                        assert(toks@.push(t) + rest->Ok_0 =~= toks@ + (seq![t] + rest->Ok_0));
                    }
                }
                toks.push(t);
                i = k;
            },
        }
    }
}

} // verus!

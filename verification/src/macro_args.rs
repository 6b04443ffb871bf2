use vstd::prelude::*;
use crate::arg_tokens::{
    lemma_continuation_end_bounds, lemma_string_close_bound, lemma_word_end_bounds, lex_from, skip_space, token_at, tokenize, unescape, unescape_exec, ArgsError, Expect, Tok,
    TokKind,
};
use crate::create::{DEFAULT_COLS, DEFAULT_ROWS_FULL, DEFAULT_ROWS_SMALL};

verus! {

/// Visibility of the declared font: none, `pub`, `pub(crate)`,
/// `pub(self)`, `pub(super)`, or `pub(in path)` with the path's span.
#[derive(Clone, Copy, Debug, PartialEq, Eq, Structural)]
pub enum Visibility {
    Inherited,
    Public,
    Crate,
    SelfOnly,
    Super,
    InPath(usize, usize),
}

/// The words the argument grammar knows.
#[derive(Clone, Copy, Debug, PartialEq, Eq, Structural)]
pub enum Word {
    Pub,
    Crate,
    SelfKw,
    Super,
    In,
    Full,
    Size,
    Monospace,
    Widths,
    Recolor,
    Bold,
    Debug,
    Other,
}

/// The arguments of a font declaration: visibility, the span of the
/// static's name in the source, the sheet's path, the sheet grid if given,
/// monospacing (`Some(None)` for the widest glyph), width overrides, bold
/// strength, band recoloring, and whether to print the widths.
pub struct FontArgs {
    pub vis: Visibility,
    pub name: (usize, usize),
    pub path: Vec<u8>,
    pub grid: Option<(u32, u32)>,
    pub monospace: Option<Option<u8>>,
    pub width_overrides: Vec<(u8, u8)>,
    pub bold: u8,
    pub recolor: Vec<(u8, u8)>,
    pub debug: bool,
}

/// What a `FontArgs` holds, as plain values.
pub struct ArgsView {
    pub vis: Visibility,
    pub name: (usize, usize),
    pub path: Seq<u8>,
    pub grid: Option<(u32, u32)>,
    pub monospace: Option<Option<u8>>,
    pub widths: Seq<(u8, u8)>,
    pub bold: u8,
    pub recolor: Seq<(u8, u8)>,
    pub debug: bool,
}

impl View for FontArgs {
    type V = ArgsView;

    open spec fn view(&self) -> ArgsView {
        ArgsView {
            vis: self.vis,
            name: self.name,
            path: self.path@,
            grid: self.grid,
            monospace: self.monospace,
            widths: self.width_overrides@,
            bold: self.bold,
            recolor: self.recolor@,
            debug: self.debug,
        }
    }
}

/// The sheet grid of arguments: the one given, else 16 columns by 6 rows.
pub open spec fn args_grid(a: ArgsView) -> (u32, u32) {
    match a.grid {
        Some(g) => g,
        None => (DEFAULT_COLS, DEFAULT_ROWS_SMALL),
    }
}

impl FontArgs {
    /// The sheet grid: the one given, else 16 columns by 6 rows
    pub fn grid(&self) -> (r: (u32, u32))
        ensures
            r == args_grid(self@),
    {
        match self.grid {
            Some(g) => g,
            None => (DEFAULT_COLS, DEFAULT_ROWS_SMALL),
        }
    }
}

/// The word spelled by `w`.
pub open spec fn word_of(w: Seq<u8>) -> Word {
    if w == seq![112u8, 117, 98] {
        Word::Pub
    } else if w == seq![99u8, 114, 97, 116, 101] {
        Word::Crate
    } else if w == seq![115u8, 101, 108, 102] {
        Word::SelfKw
    } else if w == seq![115u8, 117, 112, 101, 114] {
        Word::Super
    } else if w == seq![105u8, 110] {
        Word::In
    } else if w == seq![102u8, 117, 108, 108] {
        Word::Full
    } else if w == seq![115u8, 105, 122, 101] {
        Word::Size
    } else if w == seq![109u8, 111, 110, 111, 115, 112, 97, 99, 101] {
        Word::Monospace
    } else if w == seq![119u8, 105, 100, 116, 104, 115] {
        Word::Widths
    } else if w == seq![114u8, 101, 99, 111, 108, 111, 114] {
        Word::Recolor
    } else if w == seq![98u8, 111, 108, 100] {
        Word::Bold
    } else if w == seq![100u8, 101, 98, 117, 103] {
        Word::Debug
    } else {
        Word::Other
    }
}

/// Token `i` is the punctuation byte `b`.
pub open spec fn punct_at(t: Seq<Tok>, i: int, b: u8) -> bool {
    0 <= i < t.len() && t[i].kind == TokKind::Punct && t[i].val == b
}

/// Token `i` is of kind `k`.
pub open spec fn kind_at(t: Seq<Tok>, i: int, k: TokKind) -> bool {
    0 <= i < t.len() && t[i].kind == k
}

/// The word of token `i` if it is an identifier.
pub open spec fn ident_word(src: Seq<u8>, t: Seq<Tok>, i: int) -> Option<Word> {
    if kind_at(t, i, TokKind::Ident) {
        Some(word_of(src.subrange(t[i].start as int, t[i].end as int)))
    } else {
        None
    }
}

/// The value of token `i` if it is an integer literal.
pub open spec fn int_at(t: Seq<Tok>, i: int) -> Option<u64> {
    if kind_at(t, i, TokKind::Int) {
        Some(t[i].val)
    } else {
        None
    }
}

/// End of a module path from token `i` on: identifiers joined by `::`;
/// `None` if none starts there.
pub open spec fn path_end(t: Seq<Tok>, i: int) -> Option<int>
    decreases t.len() - i,
{
    if !kind_at(t, i, TokKind::Ident) {
        None
    } else if punct_at(t, i + 1, 58) && punct_at(t, i + 2, 58) {
        path_end(t, i + 3)
    } else {
        Some(i + 1)
    }
}

/// The visibility the tokens open with and the number of tokens it takes;
/// `pub(in path)` must close after its path.
pub open spec fn parse_vis(src: Seq<u8>, t: Seq<Tok>) -> Result<(Visibility, int), ArgsError> {
    if ident_word(src, t, 0) == Some(Word::Pub) {
        if punct_at(t, 1, 40) {
            match ident_word(src, t, 2) {
                Some(Word::Crate) => Ok(
                    if punct_at(t, 3, 41) {
                        (Visibility::Crate, 4)
                    } else {
                        (Visibility::Public, 1)
                    },
                ),
                Some(Word::SelfKw) => Ok(
                    if punct_at(t, 3, 41) {
                        (Visibility::SelfOnly, 4)
                    } else {
                        (Visibility::Public, 1)
                    },
                ),
                Some(Word::Super) => Ok(
                    if punct_at(t, 3, 41) {
                        (Visibility::Super, 4)
                    } else {
                        (Visibility::Public, 1)
                    },
                ),
                Some(Word::In) => match path_end(t, 3) {
                    Some(e) => if punct_at(t, e, 41) {
                        Ok((Visibility::InPath(t[3].start, t[e - 1].end), e + 1))
                    } else {
                        Err(ArgsError::UnexpectedTokens)
                    },
                    None => Err(ArgsError::Expected(Expect::Ident)),
                },
                _ => Ok((Visibility::Public, 1)),
            }
        } else {
            Ok((Visibility::Public, 1))
        }
    } else {
        Ok((Visibility::Inherited, 0))
    }
}

/// A `u8` from an integer literal at token `i`.
pub open spec fn u8_at(t: Seq<Tok>, i: int) -> Result<u8, ArgsError> {
    match int_at(t, i) {
        Some(v) => if v <= 255 {
            Ok(v as u8)
        } else {
            Err(ArgsError::NumberTooLarge)
        },
        None => Err(ArgsError::Expected(Expect::IntLit)),
    }
}

/// A `u32` from an integer literal at token `i`.
pub open spec fn u32_at(t: Seq<Tok>, i: int) -> Result<u32, ArgsError> {
    match int_at(t, i) {
        Some(v) => if v <= u32::MAX {
            Ok(v as u32)
        } else {
            Err(ArgsError::NumberTooLarge)
        },
        None => Err(ArgsError::Expected(Expect::IntLit)),
    }
}

/// Position after an optional comma at token `i`.
pub open spec fn skip_comma(t: Seq<Tok>, i: int) -> int {
    if punct_at(t, i, 44) {
        i + 1
    } else {
        i
    }
}

/// The entries of a `widths = { key = width, ... }` block from token `i`
/// on, added to `a`, and the position after the closing brace. A key is an
/// ASCII character literal or a code point.
pub open spec fn widths_body(src: Seq<u8>, t: Seq<Tok>, i: int, a: ArgsView) -> Result<(int, ArgsView), ArgsError>
    decreases t.len() - i,
{
    if i < 0 || i >= t.len() {
        Err(ArgsError::Expected(Expect::CloseBrace))
    } else if punct_at(t, i, 125) {
        Ok((i + 1, a))
    } else {
        let key: Result<u8, ArgsError> = if kind_at(t, i, TokKind::Char) {
            if t[i].val >= 128 {
                Err(ArgsError::NonAsciiChar)
            } else {
                Ok(t[i].val as u8)
            }
        } else {
            u8_at(t, i)
        };
        match key {
            Err(e) => Err(e),
            Ok(cp) => if !punct_at(t, i + 1, 61) {
                Err(ArgsError::Expected(Expect::Equals))
            } else {
                match u8_at(t, i + 2) {
                    Err(e) => Err(e),
                    Ok(w) => widths_body(
                        src,
                        t,
                        skip_comma(t, i + 3),
                        ArgsView { widths: a.widths.push((cp, w)), ..a },
                    ),
                }
            },
        }
    }
}

/// The entries of a `recolor = { from = to, ... }` block from token `i` on,
/// added to `a`, and the position after the closing brace.
pub open spec fn recolor_body(src: Seq<u8>, t: Seq<Tok>, i: int, a: ArgsView) -> Result<(int, ArgsView), ArgsError>
    decreases t.len() - i,
{
    if i < 0 || i >= t.len() {
        Err(ArgsError::Expected(Expect::CloseBrace))
    } else if punct_at(t, i, 125) {
        Ok((i + 1, a))
    } else {
        match u8_at(t, i) {
            Err(e) => Err(e),
            Ok(from) => if from == 0 {
                Err(ArgsError::BackgroundBand)
            } else if from > 15 {
                Err(ArgsError::BandOutOfRange)
            } else if !punct_at(t, i + 1, 61) {
                Err(ArgsError::Expected(Expect::Equals))
            } else {
                match u8_at(t, i + 2) {
                    Err(e) => Err(e),
                    Ok(to) => if to > 15 {
                        Err(ArgsError::BandOutOfRange)
                    } else {
                        recolor_body(
                            src,
                            t,
                            skip_comma(t, i + 3),
                            ArgsView { recolor: a.recolor.push((from, to)), ..a },
                        )
                    },
                }
            },
        }
    }
}

/// The argument named `w`, whose value (if any) starts at token `i`,
/// applied to `a`, and the position after it.
pub open spec fn apply_option(src: Seq<u8>, t: Seq<Tok>, i: int, w: Word, a: ArgsView) -> Result<(int, ArgsView), ArgsError> {
    match w {
        Word::Full => if a.grid is Some {
            Err(ArgsError::GridTwice)
        } else {
            Ok((i, ArgsView { grid: Some((DEFAULT_COLS, DEFAULT_ROWS_FULL)), ..a }))
        },
        Word::Size => if a.grid is Some {
            Err(ArgsError::GridTwice)
        } else if !punct_at(t, i, 40) {
            Err(ArgsError::Expected(Expect::Parens))
        } else {
            match u32_at(t, i + 1) {
                Err(e) => Err(e),
                Ok(cols) => if !punct_at(t, i + 2, 44) {
                    Err(ArgsError::Expected(Expect::Comma))
                } else {
                    match u32_at(t, i + 3) {
                        Err(e) => Err(e),
                        Ok(rows) => if !punct_at(t, i + 4, 41) {
                            Err(ArgsError::ExpectedSize)
                        } else {
                            Ok((i + 5, ArgsView { grid: Some((cols, rows)), ..a }))
                        },
                    }
                },
            }
        },
        Word::Monospace => if punct_at(t, i, 61) {
            match u8_at(t, i + 1) {
                Err(e) => Err(e),
                Ok(v) => Ok((i + 2, ArgsView { monospace: Some(Some(v)), ..a })),
            }
        } else {
            Ok((i, ArgsView { monospace: Some(None), ..a }))
        },
        Word::Widths => if !punct_at(t, i, 61) {
            Err(ArgsError::Expected(Expect::Equals))
        } else if !punct_at(t, i + 1, 123) {
            Err(ArgsError::Expected(Expect::Braces))
        } else {
            widths_body(src, t, i + 2, a)
        },
        Word::Recolor => if !punct_at(t, i, 61) {
            Err(ArgsError::Expected(Expect::Equals))
        } else if !punct_at(t, i + 1, 123) {
            Err(ArgsError::Expected(Expect::Braces))
        } else {
            recolor_body(src, t, i + 2, a)
        },
        Word::Bold => if punct_at(t, i, 61) {
            match u8_at(t, i + 1) {
                Err(e) => Err(e),
                Ok(v) => Ok((i + 2, ArgsView { bold: v, ..a })),
            }
        } else {
            Ok((i, ArgsView { bold: 1, ..a }))
        },
        Word::Debug => Ok((i, ArgsView { debug: true, ..a })),
        _ => Err(ArgsError::UnknownArgument(t[i - 1].start, t[i - 1].end)),
    }
}

/// The comma-separated arguments from token `i` on, applied to `a`: a
/// trailing comma is allowed, a bare number is refused, and nothing may
/// follow the last argument but its comma.
pub open spec fn options_from(src: Seq<u8>, t: Seq<Tok>, i: int, a: ArgsView) -> Result<ArgsView, ArgsError>
    decreases t.len() - i,
{
    if i < 0 || i > t.len() {
        Err(ArgsError::UnexpectedTokens)
    } else if punct_at(t, i, 44) {
        let n = i + 1;
        if n >= t.len() {
            Ok(a)
        } else if kind_at(t, n, TokKind::Int) {
            Err(ArgsError::BareNumber)
        } else {
            match ident_word(src, t, n) {
                None => Err(ArgsError::Expected(Expect::Ident)),
                Some(w) => match apply_option(src, t, n + 1, w, a) {
                    Err(e) => Err(e),
                    Ok((j, a2)) => if i < j <= t.len() {
                        options_from(src, t, j, a2)
                    } else {
                        Err(ArgsError::UnexpectedTokens)
                    },
                },
            }
        }
    } else if i < t.len() {
        Err(ArgsError::UnexpectedTokens)
    } else {
        Ok(a)
    }
}

/// Arguments with nothing but a visibility, a name and a path.
pub open spec fn initial_args(vis: Visibility, name: (usize, usize), path: Seq<u8>) -> ArgsView {
    ArgsView {
        vis,
        name,
        path,
        grid: None,
        monospace: None,
        widths: Seq::empty(),
        bold: 0,
        recolor: Seq::empty(),
        debug: false,
    }
}

/// The arguments the tokens of `src` spell: `[vis] NAME, "path"` followed
/// by the options.
pub open spec fn parse_tokens_spec(src: Seq<u8>, t: Seq<Tok>) -> Result<ArgsView, ArgsError> {
    match parse_vis(src, t) {
        Err(e) => Err(e),
        Ok((vis, i)) => if !kind_at(t, i, TokKind::Ident) {
            Err(ArgsError::Expected(Expect::Ident))
        } else if !punct_at(t, i + 1, 44) {
            Err(ArgsError::Expected(Expect::Comma))
        } else if !kind_at(t, i + 2, TokKind::Str) {
            Err(ArgsError::Expected(Expect::StrLit))
        } else {
            let p = t[i + 2];
            match unescape(src.subrange(p.start + 1, p.end - 1)) {
                Some(path) => options_from(src, t, i + 3, initial_args(vis, (t[i].start, t[i].end), path)),
                None => Err(ArgsError::InvalidLiteral),
            }
        }
    }
}

/// The arguments that the text `src` spells, or why it is refused.
pub open spec fn parse_args_spec(src: Seq<u8>) -> Result<ArgsView, ArgsError> {
    match lex_from(src, 0) {
        Err(e) => Err(e),
        Ok(t) => parse_tokens_spec(src, t),
    }
}

/// The span of a token lies in the source and holds at least one byte, a
/// string literal's at least its two quotes.
pub open spec fn tok_ok(src: Seq<u8>, t: Tok) -> bool {
    &&& t.start < t.end <= src.len()
    &&& t.kind == TokKind::Str ==> t.start + 2 <= t.end
}

/// Every token's span lies in the source.
pub open spec fn toks_ok(src: Seq<u8>, t: Seq<Tok>) -> bool {
    forall|i: int| 0 <= i < t.len() ==> tok_ok(src, #[trigger] t[i])
}

proof fn lemma_token_span(s: Seq<u8>, j: int)
    requires
        0 <= j < s.len(),
        s.len() <= usize::MAX,
    ensures
        token_at(s, j) matches Ok((t, k)) ==> t.start == j && t.end == k && (t.kind == TokKind::Str ==> j + 2 <= k),
{
    lemma_string_close_bound(s, j + 1);
    lemma_word_end_bounds(s, j);
    if j + 2 <= s.len() {
        lemma_continuation_end_bounds(s, j + 2);
    }
}

/// Tokens read from a text have spans inside it.
pub proof fn lemma_lex_spans(s: Seq<u8>, i: int)
    requires
        0 <= i <= s.len(),
        s.len() <= usize::MAX,
    ensures
        lex_from(s, i) matches Ok(t) ==> toks_ok(s, t),
    decreases s.len() - i,
{
    let j = skip_space(s, i);
    if j < s.len() && i <= j {
        lemma_token_span(s, j);
        if let Ok((t, k)) = token_at(s, j) {
            if j < k <= s.len() {
                lemma_lex_spans(s, k);
                if let Ok(r) = lex_from(s, k) {
                    let all = seq![t] + r;
                    assert(tok_ok(s, t));
                    assert forall|n: int| 0 <= n < all.len() implies tok_ok(s, #[trigger] all[n]) by {
                        if n > 0 {
                            assert(all[n] == r[n - 1]);
                        } else {
                            assert(all[n] == t);
                        }
                    }
                }
            }
        }
    }
}

/// Whether `src[start..end]` spells `lit`.
fn span_is(src: &[u8], start: usize, end: usize, lit: &[u8]) -> (r: bool)
    requires
        start <= end <= src.len(),
    ensures
        r == (src@.subrange(start as int, end as int) == lit@),
{
    if end - start != lit.len() {
        proof {
            assert(src@.subrange(start as int, end as int).len() != lit@.len());
        }
        return false;
    }
    let mut k: usize = 0;
    while k < lit.len()
        invariant
            start <= end <= src.len(),
            end - start == lit.len(),
            0 <= k <= lit.len(),
            forall|j: int| 0 <= j < k ==> src@[start + j] == #[trigger] lit@[j],
        decreases lit.len() - k,
    {
        if src[start + k] != lit[k] {
            proof {
                assert(src@.subrange(start as int, end as int)[k as int] != lit@[k as int]);
            }
            return false;
        }
        k = k + 1;
    }
    proof {
        assert(src@.subrange(start as int, end as int) =~= lit@);
    }
    true
}

/// The word spelled by `src[start..end]`.
fn word_exec(src: &[u8], start: usize, end: usize) -> (r: Word)
    requires
        start <= end <= src.len(),
    ensures
        r == word_of(src@.subrange(start as int, end as int)),
{
    let w: &[u8] = &[112u8, 117, 98];
    proof {
        assert(w@ =~= seq![112u8, 117, 98]);
    }
    if span_is(src, start, end, w) {
        return Word::Pub;
    }
    let w: &[u8] = &[99u8, 114, 97, 116, 101];
    proof {
        assert(w@ =~= seq![99u8, 114, 97, 116, 101]);
    }
    if span_is(src, start, end, w) {
        return Word::Crate;
    }
    let w: &[u8] = &[115u8, 101, 108, 102];
    proof {
        assert(w@ =~= seq![115u8, 101, 108, 102]);
    }
    if span_is(src, start, end, w) {
        return Word::SelfKw;
    }
    let w: &[u8] = &[115u8, 117, 112, 101, 114];
    proof {
        assert(w@ =~= seq![115u8, 117, 112, 101, 114]);
    }
    if span_is(src, start, end, w) {
        return Word::Super;
    }
    let w: &[u8] = &[105u8, 110];
    proof {
        assert(w@ =~= seq![105u8, 110]);
    }
    if span_is(src, start, end, w) {
        return Word::In;
    }
    let w: &[u8] = &[102u8, 117, 108, 108];
    proof {
        assert(w@ =~= seq![102u8, 117, 108, 108]);
    }
    if span_is(src, start, end, w) {
        return Word::Full;
    }
    let w: &[u8] = &[115u8, 105, 122, 101];
    proof {
        assert(w@ =~= seq![115u8, 105, 122, 101]);
    }
    if span_is(src, start, end, w) {
        return Word::Size;
    }
    let w: &[u8] = &[109u8, 111, 110, 111, 115, 112, 97, 99, 101];
    proof {
        assert(w@ =~= seq![109u8, 111, 110, 111, 115, 112, 97, 99, 101]);
    }
    if span_is(src, start, end, w) {
        return Word::Monospace;
    }
    let w: &[u8] = &[119u8, 105, 100, 116, 104, 115];
    proof {
        assert(w@ =~= seq![119u8, 105, 100, 116, 104, 115]);
    }
    if span_is(src, start, end, w) {
        return Word::Widths;
    }
    let w: &[u8] = &[114u8, 101, 99, 111, 108, 111, 114];
    proof {
        assert(w@ =~= seq![114u8, 101, 99, 111, 108, 111, 114]);
    }
    if span_is(src, start, end, w) {
        return Word::Recolor;
    }
    let w: &[u8] = &[98u8, 111, 108, 100];
    proof {
        assert(w@ =~= seq![98u8, 111, 108, 100]);
    }
    if span_is(src, start, end, w) {
        return Word::Bold;
    }
    let w: &[u8] = &[100u8, 101, 98, 117, 103];
    proof {
        assert(w@ =~= seq![100u8, 101, 98, 117, 103]);
    }
    if span_is(src, start, end, w) {
        return Word::Debug;
    }
    Word::Other
}

fn ident_word_exec(src: &[u8], toks: &[Tok], i: usize) -> (r: Option<Word>)
    requires
        toks_ok(src@, toks@),
    ensures
        r == ident_word(src@, toks@, i as int),
{
    if i < toks.len() && toks[i].kind == TokKind::Ident {
        Some(word_exec(src, toks[i].start, toks[i].end))
    } else {
        None
    }
}

fn punct_at_exec(toks: &[Tok], i: usize, b: u8) -> (r: bool)
    ensures
        r == punct_at(toks@, i as int, b),
{
    i < toks.len() && toks[i].kind == TokKind::Punct && toks[i].val == b as u64
}

fn kind_at_exec(toks: &[Tok], i: usize, k: TokKind) -> (r: bool)
    ensures
        r == kind_at(toks@, i as int, k),
{
    i < toks.len() && toks[i].kind == k
}

fn u8_at_exec(toks: &[Tok], i: usize) -> (r: Result<u8, ArgsError>)
    ensures
        r == u8_at(toks@, i as int),
{
    if i < toks.len() && toks[i].kind == TokKind::Int {
        if toks[i].val <= 255 {
            Ok(toks[i].val as u8)
        } else {
            Err(ArgsError::NumberTooLarge)
        }
    } else {
        Err(ArgsError::Expected(Expect::IntLit))
    }
}

fn u32_at_exec(toks: &[Tok], i: usize) -> (r: Result<u32, ArgsError>)
    ensures
        r == u32_at(toks@, i as int),
{
    if i < toks.len() && toks[i].kind == TokKind::Int {
        if toks[i].val <= 0xFFFF_FFFF {
            Ok(toks[i].val as u32)
        } else {
            Err(ArgsError::NumberTooLarge)
        }
    } else {
        Err(ArgsError::Expected(Expect::IntLit))
    }
}

fn path_end_exec(toks: &[Tok], i: usize) -> (r: Option<usize>)
    ensures
        match path_end(toks@, i as int) {
            Some(e) => r == Some(e as usize) && i < e <= toks.len(),
            None => r is None,
        },
{
    let mut j = i;
    loop
        invariant
            i <= j,
            path_end(toks@, i as int) == path_end(toks@, j as int),
            (j - i) % 3 == 0,
        decreases toks.len() - j,
    {
        if !(j < toks.len() && toks[j].kind == TokKind::Ident) {
            return None;
        }
        if punct_at_exec(toks, j + 1, 58) && punct_at_exec(toks, j + 2, 58) {
            j = j + 3;
        } else {
            return Some(j + 1);
        }
    }
}

fn parse_vis_exec(src: &[u8], toks: &[Tok]) -> (r: Result<(Visibility, usize), ArgsError>)
    requires
        toks_ok(src@, toks@),
    ensures
        match parse_vis(src@, toks@) {
            Ok((v, n)) => r == Ok::<(Visibility, usize), ArgsError>((v, n as usize)) && 0 <= n <= toks.len(),
            Err(e) => r == Err::<(Visibility, usize), ArgsError>(e),
        },
{
    if ident_word_exec(src, toks, 0) == Some(Word::Pub) {
        if punct_at_exec(toks, 1, 40) {
            match ident_word_exec(src, toks, 2) {
                Some(Word::Crate) => Ok(
                    if punct_at_exec(toks, 3, 41) {
                        (Visibility::Crate, 4)
                    } else {
                        (Visibility::Public, 1)
                    },
                ),
                Some(Word::SelfKw) => Ok(
                    if punct_at_exec(toks, 3, 41) {
                        (Visibility::SelfOnly, 4)
                    } else {
                        (Visibility::Public, 1)
                    },
                ),
                Some(Word::Super) => Ok(
                    if punct_at_exec(toks, 3, 41) {
                        (Visibility::Super, 4)
                    } else {
                        (Visibility::Public, 1)
                    },
                ),
                Some(Word::In) => match path_end_exec(toks, 3) {
                    Some(e) => if punct_at_exec(toks, e, 41) {
                        Ok((Visibility::InPath(toks[3].start, toks[e - 1].end), e + 1))
                    } else {
                        Err(ArgsError::UnexpectedTokens)
                    },
                    None => Err(ArgsError::Expected(Expect::Ident)),
                },
                _ => Ok((Visibility::Public, 1)),
            }
        } else {
            Ok((Visibility::Public, 1))
        }
    } else {
        Ok((Visibility::Inherited, 0))
    }
}

/// Position after an optional comma at token `i`.
fn skip_comma_exec(toks: &[Tok], i: usize) -> (r: usize)
    requires
        i <= toks.len(),
    ensures
        r == skip_comma(toks@, i as int),
{
    if punct_at_exec(toks, i, 44) {
        i + 1
    } else {
        i
    }
}

/// Reads a `widths` block from token `i` on into `args` (see
/// `widths_body`).
fn widths_body_exec(src: &[u8], toks: &[Tok], i: usize, args: &mut FontArgs) -> (r: Result<usize, ArgsError>)
    requires
        i <= toks.len(),
    ensures
        match widths_body(src@, toks@, i as int, old(args)@) {
            Ok((j, a)) => r == Ok::<usize, ArgsError>(j as usize) && final(args)@ == a && i < j <= toks.len(),
            Err(e) => r == Err::<usize, ArgsError>(e),
        },
{
    let mut k = i;
    loop
        invariant
            i <= k <= toks.len(),
            widths_body(src@, toks@, i as int, old(args)@) == widths_body(src@, toks@, k as int, args@),
        decreases toks.len() - k,
    {
        if k >= toks.len() {
            return Err(ArgsError::Expected(Expect::CloseBrace));
        }
        if punct_at_exec(toks, k, 125) {
            return Ok(k + 1);
        }
        let key = if toks[k].kind == TokKind::Char {
            if toks[k].val >= 128 {
                Err(ArgsError::NonAsciiChar)
            } else {
                Ok(toks[k].val as u8)
            }
        } else {
            u8_at_exec(toks, k)
        };
        let cp = match key {
            Err(e) => {
                return Err(e);
            },
            Ok(cp) => cp,
        };
        if !punct_at_exec(toks, k + 1, 61) {
            return Err(ArgsError::Expected(Expect::Equals));
        }
        let w = match u8_at_exec(toks, k + 2) {
            Err(e) => {
                return Err(e);
            },
            Ok(w) => w,
        };
        args.width_overrides.push((cp, w));
        k = skip_comma_exec(toks, k + 3);
    }
}

/// Reads a `recolor` block from token `i` on into `args` (see
/// `recolor_body`).
fn recolor_body_exec(src: &[u8], toks: &[Tok], i: usize, args: &mut FontArgs) -> (r: Result<usize, ArgsError>)
    requires
        i <= toks.len(),
    ensures
        match recolor_body(src@, toks@, i as int, old(args)@) {
            Ok((j, a)) => r == Ok::<usize, ArgsError>(j as usize) && final(args)@ == a && i < j <= toks.len(),
            Err(e) => r == Err::<usize, ArgsError>(e),
        },
{
    let mut k = i;
    loop
        invariant
            i <= k <= toks.len(),
            recolor_body(src@, toks@, i as int, old(args)@) == recolor_body(src@, toks@, k as int, args@),
        decreases toks.len() - k,
    {
        if k >= toks.len() {
            return Err(ArgsError::Expected(Expect::CloseBrace));
        }
        if punct_at_exec(toks, k, 125) {
            return Ok(k + 1);
        }
        let from = match u8_at_exec(toks, k) {
            Err(e) => {
                return Err(e);
            },
            Ok(v) => v,
        };
        if from == 0 {
            return Err(ArgsError::BackgroundBand);
        }
        if from > 15 {
            return Err(ArgsError::BandOutOfRange);
        }
        if !punct_at_exec(toks, k + 1, 61) {
            return Err(ArgsError::Expected(Expect::Equals));
        }
        let to = match u8_at_exec(toks, k + 2) {
            Err(e) => {
                return Err(e);
            },
            Ok(v) => v,
        };
        if to > 15 {
            return Err(ArgsError::BandOutOfRange);
        }
        args.recolor.push((from, to));
        k = skip_comma_exec(toks, k + 3);
    }
}

/// Applies the argument named `w`, whose value starts at token `i`, to
/// `args` (see `apply_option`).
fn apply_option_exec(src: &[u8], toks: &[Tok], i: usize, w: Word, args: &mut FontArgs) -> (r: Result<usize, ArgsError>)
    requires
        1 <= i <= toks.len(),
    ensures
        match apply_option(src@, toks@, i as int, w, old(args)@) {
            Ok((j, a)) => r == Ok::<usize, ArgsError>(j as usize) && final(args)@ == a && i <= j <= toks.len(),
            Err(e) => r == Err::<usize, ArgsError>(e),
        },
{
    match w {
        Word::Full => {
            if args.grid.is_some() {
                return Err(ArgsError::GridTwice);
            }
            args.grid = Some((DEFAULT_COLS, DEFAULT_ROWS_FULL));
            Ok(i)
        },
        Word::Size => {
            if args.grid.is_some() {
                return Err(ArgsError::GridTwice);
            }
            if !punct_at_exec(toks, i, 40) {
                return Err(ArgsError::Expected(Expect::Parens));
            }
            let cols = match u32_at_exec(toks, i + 1) {
                Err(e) => {
                    return Err(e);
                },
                Ok(v) => v,
            };
            if !punct_at_exec(toks, i + 2, 44) {
                return Err(ArgsError::Expected(Expect::Comma));
            }
            let rows = match u32_at_exec(toks, i + 3) {
                Err(e) => {
                    return Err(e);
                },
                Ok(v) => v,
            };
            if !punct_at_exec(toks, i + 4, 41) {
                return Err(ArgsError::ExpectedSize);
            }
            args.grid = Some((cols, rows));
            Ok(i + 5)
        },
        Word::Monospace => {
            if punct_at_exec(toks, i, 61) {
                let v = match u8_at_exec(toks, i + 1) {
                    Err(e) => {
                        return Err(e);
                    },
                    Ok(v) => v,
                };
                args.monospace = Some(Some(v));
                Ok(i + 2)
            } else {
                args.monospace = Some(None);
                Ok(i)
            }
        },
        Word::Widths => {
            if !punct_at_exec(toks, i, 61) {
                return Err(ArgsError::Expected(Expect::Equals));
            }
            if !punct_at_exec(toks, i + 1, 123) {
                return Err(ArgsError::Expected(Expect::Braces));
            }
            widths_body_exec(src, toks, i + 2, args)
        },
        Word::Recolor => {
            if !punct_at_exec(toks, i, 61) {
                return Err(ArgsError::Expected(Expect::Equals));
            }
            if !punct_at_exec(toks, i + 1, 123) {
                return Err(ArgsError::Expected(Expect::Braces));
            }
            recolor_body_exec(src, toks, i + 2, args)
        },
        Word::Bold => {
            if punct_at_exec(toks, i, 61) {
                let v = match u8_at_exec(toks, i + 1) {
                    Err(e) => {
                        return Err(e);
                    },
                    Ok(v) => v,
                };
                args.bold = v;
                Ok(i + 2)
            } else {
                args.bold = 1;
                Ok(i)
            }
        },
        Word::Debug => {
            args.debug = true;
            Ok(i)
        },
        _ => Err(ArgsError::UnknownArgument(toks[i - 1].start, toks[i - 1].end)),
    }
}

/// The arguments that the tokens of `src` spell (see `parse_tokens_spec`).
pub fn parse_tokens(src: &[u8], toks: &[Tok]) -> (r: Result<FontArgs, ArgsError>)
    requires
        toks_ok(src@, toks@),
    ensures
        match parse_tokens_spec(src@, toks@) {
            Ok(a) => r matches Ok(x) && x@ == a,
            Err(e) => r matches Err(x) && x == e,
        },
{
    let (vis, i) = match parse_vis_exec(src, toks) {
        Err(e) => {
            return Err(e);
        },
        Ok(v) => v,
    };
    if !kind_at_exec(toks, i, TokKind::Ident) {
        return Err(ArgsError::Expected(Expect::Ident));
    }
    if !punct_at_exec(toks, i + 1, 44) {
        return Err(ArgsError::Expected(Expect::Comma));
    }
    if !kind_at_exec(toks, i + 2, TokKind::Str) {
        return Err(ArgsError::Expected(Expect::StrLit));
    }
    let p = toks[i + 2];
    let path = match unescape_exec(src, p.start + 1, p.end - 1) {
        Some(v) => v,
        None => {
            return Err(ArgsError::InvalidLiteral);
        },
    };
    let mut args = FontArgs {
        vis,
        name: (toks[i].start, toks[i].end),
        path,
        grid: None,
        monospace: None,
        width_overrides: Vec::new(),
        bold: 0,
        recolor: Vec::new(),
        debug: false,
    };
    let ghost a0 = args@;
    proof {
        assert(a0 =~= initial_args(vis, (toks@[i as int].start, toks@[i as int].end), path@));
    }
    let mut k = i + 3;
    loop
        invariant
            k <= toks.len(),
            toks_ok(src@, toks@),
            parse_tokens_spec(src@, toks@) == options_from(src@, toks@, k as int, args@),
        decreases toks.len() - k,
    {
        if punct_at_exec(toks, k, 44) {
            let n = k + 1;
            if n >= toks.len() {
                return Ok(args);
            }
            if kind_at_exec(toks, n, TokKind::Int) {
                return Err(ArgsError::BareNumber);
            }
            let w = match ident_word_exec(src, toks, n) {
                None => {
                    return Err(ArgsError::Expected(Expect::Ident));
                },
                Some(w) => w,
            };
            let j = match apply_option_exec(src, toks, n + 1, w, &mut args) {
                Err(e) => {
                    return Err(e);
                },
                Ok(j) => j,
            };
            k = j;
        } else if k < toks.len() {
            return Err(ArgsError::UnexpectedTokens);
        } else {
            return Ok(args);
        }
    }
}

/// Parses the argument text of a font declaration,
/// `[vis] NAME, "path"[, option]*`, where an option is `full`,
/// `size(cols, rows)`, `monospace [= N]`, `widths = { key = N, ... }`,
/// `bold [= N]`, `recolor = { from = to, ... }` or `debug` (see
/// `parse_args_spec`)
pub fn parse_args(src: &[u8]) -> (r: Result<FontArgs, ArgsError>)
    ensures
        match parse_args_spec(src@) {
            Ok(a) => r matches Ok(x) && x@ == a,
            Err(e) => r matches Err(x) && x == e,
        },
{
    let toks = match tokenize(src) {
        Err(e) => {
            return Err(e);
        },
        Ok(t) => t,
    };
    let n = src.len();
    proof {
        assert(src@.len() == n);
        lemma_lex_spans(src@, 0);
    }
    parse_tokens(src, toks.as_slice())
}

} // verus!

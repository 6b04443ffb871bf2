use vstd::prelude::*;
use crate::arg_tokens::{
    capped, digit_run_end, digits_value, has_digit, hex_digit, int_literal_value, is_digit_in, is_space,
    lemma_skip_space_bounds, lex_from, literal_base, prefix_len, prepend_tokens, skip_space, string_close, token_at, unescape, word_end,
    int_suffix_ok, is_word_byte, Tok, TokKind, INT_CAP,
};
use crate::edit::{decimal_chars, digit_char, hex_byte_chars, hex_char, width_key_chars};
use crate::font_decl::{debug_lines, entries_of, entry_chars, entry_rows, max_len, padded, row_chars, row_pieces, spaces};
use crate::macro_args::{apply_option, ident_word, kind_at, punct_at, word_of, widths_body, ArgsView, Word};

verus! {

/// The bytes of ASCII text.
pub open spec fn ascii(cs: Seq<char>) -> Seq<u8> {
    Seq::new(cs.len(), |i: int| cs[i] as u8)
}

/// Lines joined by line feeds.
pub open spec fn joined(lines: Seq<Seq<char>>) -> Seq<char>
    decreases lines.len(),
{
    if lines.len() == 0 {
        Seq::empty()
    } else if lines.len() == 1 {
        lines[0]
    } else {
        joined(lines.drop_last()) + seq!['\n'] + lines.last()
    }
}

/// Reading `s` from `i` gives `toks` and then what reading from `j` gives.
pub open spec fn lexes_to(s: Seq<u8>, i: int, j: int, toks: Seq<Tok>) -> bool {
    lex_from(s, i) == prepend_tokens(toks, lex_from(s, j))
}

/// Token runs that follow each other read as one run.
pub proof fn lemma_lexes_trans(s: Seq<u8>, i: int, j: int, k: int, t1: Seq<Tok>, t2: Seq<Tok>)
    requires
        lexes_to(s, i, j, t1),
        lexes_to(s, j, k, t2),
    ensures
        lexes_to(s, i, k, t1 + t2),
{
    if let Ok(r) = lex_from(s, k) {
        assert(t1 + (t2 + r) =~= (t1 + t2) + r);
    }
}

proof fn lemma_skip_space_same(s: Seq<u8>, i: int, j: int)
    requires
        0 <= i <= j <= s.len(),
        forall|k: int| i <= k < j ==> is_space(#[trigger] s[k]),
    ensures
        skip_space(s, i) == skip_space(s, j),
    decreases j - i,
{
    if i < j {
        lemma_skip_space_same(s, i + 1, j);
    }
}

/// Whitespace reads as no token.
pub proof fn lemma_spaces_lex(s: Seq<u8>, i: int, j: int)
    requires
        0 <= i <= j <= s.len(),
        forall|k: int| i <= k < j ==> is_space(#[trigger] s[k]),
    ensures
        lexes_to(s, i, j, Seq::empty()),
{
    lemma_skip_space_same(s, i, j);
    lemma_skip_space_bounds(s, i);
    lemma_skip_space_bounds(s, j);
    if let Ok(r) = lex_from(s, j) {
        assert(Seq::<Tok>::empty() + r =~= r);
    }
}

/// A token that starts at `i` reads as itself.
pub proof fn lemma_token_lex(s: Seq<u8>, i: int, t: Tok, k: int)
    requires
        0 <= i < s.len(),
        !is_space(s[i]),
        token_at(s, i) == Ok::<(Tok, int), crate::arg_tokens::ArgsError>((t, k)),
        i < k <= s.len(),
    ensures
        lexes_to(s, i, k, seq![t]),
{
    assert(skip_space(s, i) == i);
}

/// The bytes of a decimal number are digits, and read back as the number.
pub proof fn lemma_decimal_bytes(v: nat)
    requires
        v < INT_CAP,
    ensures
        ascii(decimal_chars(v)).len() >= 1,
        forall|i: int| 0 <= i < ascii(decimal_chars(v)).len() ==> 48 <= #[trigger] ascii(decimal_chars(v))[i] <= 57,
        digits_value(ascii(decimal_chars(v)), 10) == Some(v as int),
    decreases v,
{
    let a = ascii(decimal_chars(v));
    if v < 10 {
        assert(a =~= seq![(48 + v) as u8]);
        assert(a.drop_last() =~= Seq::<u8>::empty());
        assert(digits_value(Seq::<u8>::empty(), 10) == Some(0int));
        assert(hex_digit(a.last()) == Some(v as int));
    } else {
        lemma_decimal_bytes(v / 10);
        let b = ascii(decimal_chars(v / 10));
        assert(a.drop_last() =~= b);
        assert(a.last() == (48 + v % 10) as u8);
        assert forall|i: int| 0 <= i < a.len() implies 48 <= #[trigger] a[i] <= 57 by {
            if i < b.len() {
                assert(a[i] == b[i]);
            }
        }
    }
}

/// Every byte from `i` on is a digit in `base`: the run reaches the end.
proof fn lemma_digit_run_all(s: Seq<u8>, i: int, base: int)
    requires
        0 <= i <= s.len(),
        forall|k: int| i <= k < s.len() ==> is_digit_in(#[trigger] s[k], base),
    ensures
        digit_run_end(s, i, base) == s.len(),
    decreases s.len() - i,
{
    if i < s.len() {
        lemma_digit_run_all(s, i + 1, base);
    }
}

/// A run of word bytes ends at the first byte that is not one.
proof fn lemma_word_run(s: Seq<u8>, i: int, j: int)
    requires
        0 <= i <= j < s.len(),
        forall|k: int| i <= k < j ==> is_word_byte(#[trigger] s[k]),
        !is_word_byte(s[j]),
    ensures
        word_end(s, i) == j,
    decreases j - i,
{
    if i < j {
        lemma_word_run(s, i + 1, j);
    }
}

/// A decimal number's bytes read as that number.
proof fn lemma_decimal_literal(lit: Seq<u8>, v: nat)
    requires
        v < INT_CAP,
        lit == ascii(decimal_chars(v)),
    ensures
        int_literal_value(lit) == Some(v as int),
{
    lemma_decimal_bytes(v);
    assert(literal_base(lit) == 10);
    assert forall|k: int| 0 <= k < lit.len() implies is_digit_in(#[trigger] lit[k], 10) by {
        assert(48 <= lit[k] <= 57);
    }
    lemma_digit_run_all(lit, 0, 10);
    assert(lit.subrange(0, lit.len() as int) =~= lit);
    assert(is_digit_in(lit.subrange(0, lit.len() as int)[0], 10));
    assert(lit.subrange(lit.len() as int, lit.len() as int) =~= Seq::<u8>::empty());
}

/// The bytes of a hex digit read as that digit.
proof fn lemma_hex_char(d: int)
    requires
        0 <= d < 16,
    ensures
        hex_digit(hex_char(d) as u8) == Some(d),
        is_word_byte(hex_char(d) as u8),
{
}

/// A `0x` hex byte reads as that byte.
proof fn lemma_hex_literal(lit: Seq<u8>, cp: u8)
    requires
        lit == ascii(hex_byte_chars(cp)),
    ensures
        int_literal_value(lit) == Some(cp as int),
{
    let hi = cp as int / 16;
    let lo = cp as int % 16;
    lemma_hex_char(hi);
    lemma_hex_char(lo);
    assert(lit.len() == 4);
    assert(lit[0] == 48 && lit[1] == 120);
    assert(literal_base(lit) == 16 && prefix_len(lit) == 2);
    assert(is_digit_in(lit[2], 16) && is_digit_in(lit[3], 16));
    lemma_digit_run_all(lit, 2, 16);
    let digits = lit.subrange(2, 4);
    assert(is_digit_in(digits[0], 16));
    assert(digits.drop_last() =~= seq![lit[2]]);
    assert(seq![lit[2]].drop_last() =~= Seq::<u8>::empty());
    assert(digits_value(Seq::<u8>::empty(), 16) == Some(0int));
    assert(digits_value(seq![lit[2]], 16) == Some(capped(0, 16, hi)));
    assert(lit.subrange(4, 4) =~= Seq::<u8>::empty());
}

/// The key of a widths entry reads as code point `cp`.
pub open spec fn key_tok_ok(t: Tok, cp: u8) -> bool {
    ||| (t.kind == TokKind::Char && t.val == cp as u64 && cp < 128)
    ||| (t.kind == TokKind::Int && t.val == cp as u64)
}

/// Four tokens that read as the entry `cp = w,`.
pub open spec fn entry_toks(t: Seq<Tok>, cp: u8, w: u8) -> bool {
    &&& t.len() == 4
    &&& key_tok_ok(t[0], cp)
    &&& t[1].kind == TokKind::Punct && t[1].val == 61
    &&& t[2].kind == TokKind::Int && t[2].val == w as u64
    &&& t[3].kind == TokKind::Punct && t[3].val == 44
}

/// The key of a widths entry reads as one token.
proof fn lemma_key_lex(s: Seq<u8>, p: int, cp: u8, after: u8) -> (t: Tok)
    requires
        0 <= p,
        p + width_key_chars(cp).len() < s.len(),
        s.subrange(p, p + width_key_chars(cp).len()) == ascii(width_key_chars(cp)),
        s[p + width_key_chars(cp).len()] == after,
        after == 32,
    ensures
        lexes_to(s, p, p + width_key_chars(cp).len(), seq![t]),
        key_tok_ok(t, cp),
{
    let key = width_key_chars(cp);
    let kl = key.len() as int;
    assert forall|m: int| 0 <= m < kl implies s[p + m] == #[trigger] key[m] as u8 by {
        assert(s.subrange(p, p + kl)[m] == s[p + m]);
    }
    if cp == 39 {
        assert(s[p] == 39 && s[p + 1] == 92 && s[p + 2] == 39 && s[p + 3] == 39);
        let t = Tok { kind: TokKind::Char, start: p as usize, end: (p + 4) as usize, val: 39 };
        assert(token_at(s, p) == Ok::<(Tok, int), crate::arg_tokens::ArgsError>((t, p + 4)));
        lemma_token_lex(s, p, t, p + 4);
        t
    } else if cp == 92 {
        assert(s[p] == 39 && s[p + 1] == 92 && s[p + 2] == 92 && s[p + 3] == 39);
        let t = Tok { kind: TokKind::Char, start: p as usize, end: (p + 4) as usize, val: 92 };
        assert(token_at(s, p) == Ok::<(Tok, int), crate::arg_tokens::ArgsError>((t, p + 4)));
        lemma_token_lex(s, p, t, p + 4);
        t
    } else if 32 <= cp <= 126 {
        assert(s[p] == 39 && s[p + 1] == cp && s[p + 2] == 39);
        let t = Tok { kind: TokKind::Char, start: p as usize, end: (p + 3) as usize, val: cp as u64 };
        assert(token_at(s, p) == Ok::<(Tok, int), crate::arg_tokens::ArgsError>((t, p + 3)));
        lemma_token_lex(s, p, t, p + 3);
        t
    } else {
        let lit = s.subrange(p, p + 4);
        assert(lit =~= ascii(hex_byte_chars(cp)));
        lemma_hex_literal(lit, cp);
        lemma_hex_char(cp as int / 16);
        lemma_hex_char(cp as int % 16);
        assert(s[p] == 48 && s[p + 1] == 120);
        lemma_word_run(s, p, p + 4);
        let t = Tok { kind: TokKind::Int, start: p as usize, end: (p + 4) as usize, val: cp as u64 };
        assert(token_at(s, p) == Ok::<(Tok, int), crate::arg_tokens::ArgsError>((t, p + 4)));
        lemma_token_lex(s, p, t, p + 4);
        t
    }
}

/// A widths entry `key = width,` reads as its four tokens.
pub proof fn lemma_entry_lex(s: Seq<u8>, p: int, cp: u8, w: u8) -> (t: Seq<Tok>)
    requires
        0 <= p,
        p + entry_chars(cp, w).len() <= s.len(),
        s.subrange(p, p + entry_chars(cp, w).len()) == ascii(entry_chars(cp, w)),
    ensures
        lexes_to(s, p, p + entry_chars(cp, w).len(), t),
        entry_toks(t, cp, w),
{
    let e = entry_chars(cp, w);
    let key = width_key_chars(cp);
    let d = decimal_chars(w as nat);
    reveal_strlit(" = ");
    reveal_strlit(",");
    let kl = key.len() as int;
    let dl = d.len() as int;
    assert(e =~= key + seq![' ', '=', ' '] + d + seq![',']);
    let n = e.len() as int;
    assert forall|m: int| 0 <= m < n implies s[p + m] == #[trigger] e[m] as u8 by {
        assert(s.subrange(p, p + n)[m] == s[p + m]);
    }
    assert(s.subrange(p, p + kl) =~= ascii(key)) by {
        assert forall|m: int| 0 <= m < kl implies s.subrange(p, p + kl)[m] == ascii(key)[m] by {
            assert(e[m] == key[m]);
        }
    }
    assert(e[kl] == ' ' && e[kl + 1] == '=' && e[kl + 2] == ' ' && e[kl + 3 + dl] == ',');
    let kt = lemma_key_lex(s, p, cp, 32);
    lemma_spaces_lex(s, p + kl, p + kl + 1);
    let eq = Tok { kind: TokKind::Punct, start: (p + kl + 1) as usize, end: (p + kl + 2) as usize, val: 61 };
    assert(token_at(s, p + kl + 1) == Ok::<(Tok, int), crate::arg_tokens::ArgsError>((eq, p + kl + 2)));
    lemma_token_lex(s, p + kl + 1, eq, p + kl + 2);
    lemma_spaces_lex(s, p + kl + 2, p + kl + 3);
    let ds = p + kl + 3;
    lemma_decimal_bytes(w as nat);
    let lit = s.subrange(ds, ds + dl);
    assert(lit =~= ascii(d)) by {
        assert forall|m: int| 0 <= m < dl implies lit[m] == ascii(d)[m] by {
            assert(e[kl + 3 + m] == d[m]);
        }
    }
    lemma_decimal_literal(lit, w as nat);
    assert forall|k: int| ds <= k < ds + dl implies is_word_byte(#[trigger] s[k]) by {
        assert(lit[k - ds] == s[k]);
        assert(48 <= ascii(d)[k - ds] <= 57);
    }
    lemma_word_run(s, ds, ds + dl);
    assert(48 <= s[ds] <= 57) by {
        assert(lit[0] == s[ds]);
    }
    let dt = Tok { kind: TokKind::Int, start: ds as usize, end: (ds + dl) as usize, val: w as u64 };
    assert(token_at(s, ds) == Ok::<(Tok, int), crate::arg_tokens::ArgsError>((dt, ds + dl)));
    lemma_token_lex(s, ds, dt, ds + dl);
    let comma = Tok { kind: TokKind::Punct, start: (ds + dl) as usize, end: (ds + dl + 1) as usize, val: 44 };
    assert(token_at(s, ds + dl) == Ok::<(Tok, int), crate::arg_tokens::ArgsError>((comma, ds + dl + 1)));
    lemma_token_lex(s, ds + dl, comma, ds + dl + 1);
    lemma_lexes_trans(s, p, p + kl, p + kl + 1, seq![kt], Seq::empty());
    lemma_lexes_trans(s, p, p + kl + 1, p + kl + 2, seq![kt] + Seq::empty(), seq![eq]);
    lemma_lexes_trans(s, p, p + kl + 2, p + kl + 3, seq![kt] + Seq::empty() + seq![eq], Seq::empty());
    lemma_lexes_trans(s, p, ds, ds + dl, seq![kt] + Seq::empty() + seq![eq] + Seq::empty(), seq![dt]);
    lemma_lexes_trans(s, p, ds + dl, ds + dl + 1, seq![kt] + Seq::empty() + seq![eq] + Seq::empty() + seq![dt], seq![comma]);
    let t = seq![kt, eq, dt, comma];
    assert(seq![kt] + Seq::empty() + seq![eq] + Seq::empty() + seq![dt] + seq![comma] =~= t);
    t
}

/// Tokens that read as the entries `pairs`, four per entry.
pub open spec fn entries_toks(t: Seq<Tok>, pairs: Seq<(u8, u8)>) -> bool {
    &&& t.len() == 4 * pairs.len()
    &&& forall|m: int|
        0 <= m < pairs.len() ==> entry_toks(#[trigger] t.subrange(4 * m, 4 * m + 4), pairs[m].0, pairs[m].1)
}

/// Entry tokens that follow each other read as the entries in turn.
pub proof fn lemma_entries_concat(t1: Seq<Tok>, p1: Seq<(u8, u8)>, t2: Seq<Tok>, p2: Seq<(u8, u8)>)
    requires
        entries_toks(t1, p1),
        entries_toks(t2, p2),
    ensures
        entries_toks(t1 + t2, p1 + p2),
{
    let t = t1 + t2;
    let p = p1 + p2;
    assert forall|m: int| 0 <= m < p.len() implies entry_toks(#[trigger] t.subrange(4 * m, 4 * m + 4), p[m].0, p[m].1) by {
        if m < p1.len() {
            assert(t.subrange(4 * m, 4 * m + 4) =~= t1.subrange(4 * m, 4 * m + 4));
        } else {
            let k = m - p1.len();
            assert(t.subrange(4 * m, 4 * m + 4) =~= t2.subrange(4 * k, 4 * k + 4));
            assert(p[m] == p2[k]);
        }
    }
}

/// A part of ASCII text at a known offset sits at that offset in the bytes.
proof fn lemma_sub_ascii(s: Seq<u8>, q: int, big: Seq<char>, off: int, small: Seq<char>)
    requires
        0 <= q,
        q + big.len() <= s.len(),
        s.subrange(q, q + big.len()) == ascii(big),
        0 <= off,
        off + small.len() <= big.len(),
        big.subrange(off, off + small.len()) == small,
    ensures
        s.subrange(q + off, q + off + small.len()) == ascii(small),
{
    assert forall|m: int| 0 <= m < small.len() implies s.subrange(q + off, q + off + small.len())[m] == ascii(small)[m] by {
        assert(s.subrange(q, q + big.len())[off + m] == s[q + off + m]);
        assert(big.subrange(off, off + small.len())[m] == big[off + m]);
    }
    assert(s.subrange(q + off, q + off + small.len()) =~= ascii(small));
}

/// Spaces and line feeds at offset `off` read as nothing.
proof fn lemma_sub_spaces(s: Seq<u8>, q: int, big: Seq<char>, off: int, n: int)
    requires
        0 <= q,
        q + big.len() <= s.len(),
        s.subrange(q, q + big.len()) == ascii(big),
        0 <= off,
        0 <= n,
        off + n <= big.len(),
        forall|m: int| off <= m < off + n ==> #[trigger] big[m] == ' ' || big[m] == '\n',
    ensures
        lexes_to(s, q + off, q + off + n, Seq::empty()),
{
    assert forall|k: int| q + off <= k < q + off + n implies is_space(#[trigger] s[k]) by {
        assert(s.subrange(q, q + big.len())[k - q] == s[k]);
        assert(big[k - q] == ' ' || big[k - q] == '\n');
    }
    lemma_spaces_lex(s, q + off, q + off + n);
}

/// The first `n` pieces of a row read as their entries.
proof fn lemma_pieces_lex(s: Seq<u8>, q: int, row: Seq<Seq<char>>, pairs: Seq<(u8, u8)>, width: int, n: int) -> (t: Seq<
    Tok,
>)
    requires
        0 <= q,
        0 <= n <= row.len(),
        row.len() == pairs.len(),
        forall|m: int| 0 <= m < row.len() ==> #[trigger] row[m] == entry_chars(pairs[m].0, pairs[m].1),
        q + ("   "@ + row_pieces(row, width, n)).len() <= s.len(),
        s.subrange(q, q + ("   "@ + row_pieces(row, width, n)).len()) == ascii("   "@ + row_pieces(row, width, n)),
    ensures
        lexes_to(s, q, q + ("   "@ + row_pieces(row, width, n)).len(), t),
        entries_toks(t, pairs.take(n)),
    decreases n,
{
    reveal_strlit("   ");
    reveal_strlit(" ");
    if n == 0 {
        let big = "   "@ + row_pieces(row, width, 0);
        assert(big =~= seq![' ', ' ', ' ']);
        lemma_sub_spaces(s, q, big, 0, 3);
        assert(pairs.take(0) =~= Seq::<(u8, u8)>::empty());
        Seq::empty()
    } else {
        let pre = "   "@ + row_pieces(row, width, n - 1);
        let e = row[n - 1];
        let x = if n < row.len() {
            padded(e, width)
        } else {
            e
        };
        let big = "   "@ + row_pieces(row, width, n);
        assert(big =~= pre + seq![' '] + x);
        assert(big.subrange(0, pre.len() as int) =~= pre);
        lemma_sub_ascii(s, q, big, 0, pre);
        let t0 = lemma_pieces_lex(s, q, row, pairs, width, n - 1);
        let a = pre.len() as int;
        lemma_sub_spaces(s, q, big, a, 1);
        assert(big.subrange(a + 1, a + 1 + e.len()) =~= e);
        lemma_sub_ascii(s, q, big, a + 1, e);
        let (cp, w) = pairs[n - 1];
        let te = lemma_entry_lex(s, q + a + 1, cp, w);
        lemma_lexes_trans(s, q, q + a, q + a + 1, t0, Seq::empty());
        lemma_lexes_trans(s, q, q + a + 1, q + a + 1 + e.len(), t0 + Seq::empty(), te);
        let pad = x.len() - e.len();
        if n < row.len() {
            assert forall|m: int| a + 1 + e.len() <= m < a + 1 + e.len() + pad implies #[trigger] big[m] == ' ' by {
                assert(big[m] == x[m - a - 1]);
            }
        } else {
            assert(pad == 0);
        }
        lemma_sub_spaces(s, q, big, a + 1 + e.len(), pad);
        lemma_lexes_trans(s, q, q + a + 1 + e.len(), q + big.len(), t0 + Seq::empty() + te, Seq::empty());
        let t = t0 + te;
        assert(t0 + Seq::empty() + te + Seq::empty() =~= t);
        assert(entries_toks(te, seq![(cp, w)])) by {
            assert(te.subrange(0, 4) =~= te);
        }
        lemma_entries_concat(t0, pairs.take(n - 1), te, seq![(cp, w)]);
        assert(pairs.take(n - 1) + seq![(cp, w)] =~= pairs.take(n));
        t
    }
}

/// A printed row of entries reads as its entries.
pub proof fn lemma_row_lex(s: Seq<u8>, q: int, row: Seq<Seq<char>>, pairs: Seq<(u8, u8)>, width: int) -> (t: Seq<Tok>)
    requires
        0 <= q,
        row.len() == pairs.len(),
        forall|m: int| 0 <= m < row.len() ==> #[trigger] row[m] == entry_chars(pairs[m].0, pairs[m].1),
        q + row_chars(row, width).len() <= s.len(),
        s.subrange(q, q + row_chars(row, width).len()) == ascii(row_chars(row, width)),
    ensures
        lexes_to(s, q, q + row_chars(row, width).len(), t),
        entries_toks(t, pairs),
{
    let t = lemma_pieces_lex(s, q, row, pairs, width, row.len() as int);
    assert(pairs.take(row.len() as int) =~= pairs);
    t
}

/// Each line after a line feed.
pub open spec fn lines_after(rows: Seq<Seq<char>>) -> Seq<char>
    decreases rows.len(),
{
    if rows.len() == 0 {
        Seq::empty()
    } else {
        lines_after(rows.drop_last()) + seq!['\n'] + rows.last()
    }
}

/// A first line followed by more lines joins as the first line and each
/// later one after a line feed.
proof fn lemma_joined_head(h: Seq<char>, rows: Seq<Seq<char>>)
    ensures
        joined(seq![h] + rows) == h + lines_after(rows),
    decreases rows.len(),
{
    if rows.len() == 0 {
        assert(seq![h] + rows =~= seq![h]);
        assert(h + lines_after(rows) =~= h);
    } else {
        lemma_joined_head(h, rows.drop_last());
        assert((seq![h] + rows).drop_last() =~= seq![h] + rows.drop_last());
        assert(h + lines_after(rows) =~= h + lines_after(rows.drop_last()) + seq!['\n'] + rows.last());
    }
}

/// The code points and widths of a font's entries.
pub open spec fn entry_pairs(first_cp: u8, widths: Seq<u8>) -> Seq<(u8, u8)> {
    Seq::new(widths.len(), |i: int| ((first_cp + i) as u8, widths[i]))
}

/// End of row `k` of entries, eight to a row.
pub open spec fn row_end(k: int, n: int) -> int {
    if 8 * k + 8 < n {
        8 * k + 8
    } else {
        n
    }
}

/// The first `k` printed rows of entries read as their entries.
proof fn lemma_rows_lex(s: Seq<u8>, q: int, first_cp: u8, widths: Seq<u8>, width: int, k: int) -> (t: Seq<Tok>)
    requires
        0 <= q,
        0 <= k <= entry_rows(entries_of(first_cp, widths), width).len(),
        q + lines_after(entry_rows(entries_of(first_cp, widths), width).take(k)).len() <= s.len(),
        s.subrange(q, q + lines_after(entry_rows(entries_of(first_cp, widths), width).take(k)).len()) == ascii(
            lines_after(entry_rows(entries_of(first_cp, widths), width).take(k)),
        ),
    ensures
        lexes_to(s, q, q + lines_after(entry_rows(entries_of(first_cp, widths), width).take(k)).len(), t),
        entries_toks(t, entry_pairs(first_cp, widths).take(if 8 * k < widths.len() { 8 * k } else { widths.len() as int })),
    decreases k,
{
    let es = entries_of(first_cp, widths);
    let rows = entry_rows(es, width);
    let ps = entry_pairs(first_cp, widths);
    let n = widths.len() as int;
    if k == 0 {
        assert(rows.take(0) =~= Seq::<Seq<char>>::empty());
        lemma_spaces_lex(s, q, q);
        assert(ps.take(0) =~= Seq::<(u8, u8)>::empty());
        Seq::empty()
    } else {
        let pre = lines_after(rows.take(k - 1));
        let row = rows[k - 1];
        let big = lines_after(rows.take(k));
        assert(rows.take(k).drop_last() =~= rows.take(k - 1));
        assert(big == pre + seq!['\n'] + row);
        assert(big.subrange(0, pre.len() as int) =~= pre);
        lemma_sub_ascii(s, q, big, 0, pre);
        let t0 = lemma_rows_lex(s, q, first_cp, widths, width, k - 1);
        let a = pre.len() as int;
        assert(big[a] == '\n');
        lemma_sub_spaces(s, q, big, a, 1);
        assert(big.subrange(a + 1, a + 1 + row.len()) =~= row);
        lemma_sub_ascii(s, q, big, a + 1, row);
        let lo = 8 * (k - 1);
        let hi = row_end(k - 1, n);
        let rs = es.subrange(lo, hi);
        let rp = ps.subrange(lo, hi);
        assert(row == row_chars(rs, width));
        assert forall|m: int| 0 <= m < rs.len() implies #[trigger] rs[m] == entry_chars(rp[m].0, rp[m].1) by {
            assert(rs[m] == es[lo + m]);
            assert(rp[m] == ps[lo + m]);
        }
        let tr = lemma_row_lex(s, q + a + 1, rs, rp, width);
        lemma_lexes_trans(s, q, q + a, q + a + 1, t0, Seq::empty());
        lemma_lexes_trans(s, q, q + a + 1, q + big.len(), t0 + Seq::empty(), tr);
        assert(t0 + Seq::empty() + tr =~= t0 + tr);
        lemma_entries_concat(t0, ps.take(lo), tr, rp);
        assert(ps.take(lo) + rp =~= ps.take(hi));
        t0 + tr
    }
}

/// Reading a `widths` block's entries from token `3 + 4 * k` on adds the
/// remaining entries and stops after the closing brace.
pub(crate) proof fn lemma_widths_body_reads(src: Seq<u8>, t: Seq<Tok>, ps: Seq<(u8, u8)>, k: int, a: ArgsView)
    requires
        0 <= k <= ps.len(),
        t.len() == 3 + 4 * (ps.len() as int) + 1,
        entries_toks(t.subrange(3, 3 + 4 * (ps.len() as int)), ps),
        t[3 + 4 * (ps.len() as int)].kind == TokKind::Punct,
        t[3 + 4 * (ps.len() as int)].val == 125,
    ensures
        widths_body(src, t, 3 + 4 * k, a) == Ok::<(int, ArgsView), crate::arg_tokens::ArgsError>(
            (t.len() as int, ArgsView { widths: a.widths + ps.skip(k), ..a }),
        ),
    decreases ps.len() - k,
{
    let i = 3 + 4 * k;
    if k == ps.len() {
        assert(a.widths + ps.skip(k) =~= a.widths);
    } else {
        let body = t.subrange(3, 3 + 4 * (ps.len() as int));
        let et = body.subrange(4 * k, 4 * k + 4);
        assert(entry_toks(et, ps[k].0, ps[k].1));
        assert(et[0] == t[i] && et[1] == t[i + 1] && et[2] == t[i + 2] && et[3] == t[i + 3]);
        let a2 = ArgsView { widths: a.widths.push((ps[k].0, ps[k].1)), ..a };
        lemma_widths_body_reads(src, t, ps, k + 1, a2);
        assert(a2.widths + ps.skip(k + 1) =~= a.widths + ps.skip(k));
        assert(3 + 4 * (k + 1) == i + 4);
    }
}

/// The first code point of a font whose header starts with `mode_byte`.
pub open spec fn first_code_point(mode_byte: u8) -> u8 {
    if mode_byte == 0 {
        32
    } else {
        0
    }
}

/// The pasted widths block of a font report: the report's lines from its
/// `widths = {` line on, joined by line feeds, as bytes.
pub open spec fn pasted_block(a: ArgsView, name: Seq<char>, path: Seq<char>, bytes: Seq<u8>, glyph_count: int) -> Seq<u8> {
    let lines = debug_lines(a, name, path, bytes, glyph_count);
    ascii(joined(lines.subrange(2, lines.len() as int)))
}

/// The pasted block is the `widths = {` line, each row after a line feed,
/// and the closing line after one more.
proof fn lemma_block_text(a: ArgsView, name: Seq<char>, path: Seq<char>, bytes: Seq<u8>, glyph_count: int)
    requires
        0 <= glyph_count,
        3 + glyph_count <= bytes.len(),
    ensures
        ({
            let es = entries_of(first_code_point(bytes[0]), bytes.subrange(3, 3 + glyph_count));
            pasted_block(a, name, path, bytes, glyph_count) == ascii(
                "  widths = {"@ + lines_after(entry_rows(es, max_len(es))) + seq!['\n'] + "  }"@,
            )
        }),
{
    let es = entries_of(first_code_point(bytes[0]), bytes.subrange(3, 3 + glyph_count));
    let rows = entry_rows(es, max_len(es));
    let lines = debug_lines(a, name, path, bytes, glyph_count);
    let h = "  widths = {"@;
    let f = "  }"@;
    assert(lines.subrange(2, lines.len() as int) =~= (seq![h] + rows).push(f));
    lemma_joined_head(h, rows);
    assert((seq![h] + rows).push(f).drop_last() =~= seq![h] + rows);
    assert(joined((seq![h] + rows).push(f)) =~= h + lines_after(rows) + seq!['\n'] + f);
}

/// `  widths = {` reads as `widths`, `=` and `{`.
proof fn lemma_head_lex(s: Seq<u8>) -> (t: Seq<Tok>)
    requires
        12 < s.len(),
        s.subrange(0, 12) == ascii("  widths = {"@),
    ensures
        lexes_to(s, 0, 12, t),
        t.len() == 3,
        t[0].kind == TokKind::Ident && t[0].start == 2 && t[0].end == 8,
        t[1].kind == TokKind::Punct && t[1].val == 61,
        t[2].kind == TokKind::Punct && t[2].val == 123,
        s.subrange(2, 8) == seq![119u8, 105, 100, 116, 104, 115],
{
    reveal_strlit("  widths = {");
    let h = "  widths = {"@;
    assert(h =~= seq![' ', ' ', 'w', 'i', 'd', 't', 'h', 's', ' ', '=', ' ', '{']);
    assert forall|k: int| 0 <= k < 12 implies s[k] == #[trigger] h[k] as u8 by {
        assert(s.subrange(0, 12)[k] == s[k]);
    }
    assert(s[0] == 32 && s[1] == 32 && s[2] == 119 && s[8] == 32 && s[9] == 61 && s[10] == 32 && s[11] == 123);
    lemma_spaces_lex(s, 0, 2);
    assert forall|k: int| 2 <= k < 8 implies is_word_byte(#[trigger] s[k]) by {
        assert(s[k] == h[k] as u8);
    }
    lemma_word_run(s, 2, 8);
    let id = Tok { kind: TokKind::Ident, start: 2usize, end: 8usize, val: 0 };
    assert(token_at(s, 2) == Ok::<(Tok, int), crate::arg_tokens::ArgsError>((id, 8)));
    lemma_token_lex(s, 2, id, 8);
    lemma_spaces_lex(s, 8, 9);
    let eq = Tok { kind: TokKind::Punct, start: 9usize, end: 10usize, val: 61 };
    assert(token_at(s, 9) == Ok::<(Tok, int), crate::arg_tokens::ArgsError>((eq, 10)));
    lemma_token_lex(s, 9, eq, 10);
    lemma_spaces_lex(s, 10, 11);
    let open = Tok { kind: TokKind::Punct, start: 11usize, end: 12usize, val: 123 };
    assert(token_at(s, 11) == Ok::<(Tok, int), crate::arg_tokens::ArgsError>((open, 12)));
    lemma_token_lex(s, 11, open, 12);
    lemma_lexes_trans(s, 0, 2, 8, Seq::empty(), seq![id]);
    lemma_lexes_trans(s, 0, 8, 9, Seq::empty() + seq![id], Seq::empty());
    lemma_lexes_trans(s, 0, 9, 10, Seq::empty() + seq![id] + Seq::empty(), seq![eq]);
    lemma_lexes_trans(s, 0, 10, 11, Seq::empty() + seq![id] + Seq::empty() + seq![eq], Seq::empty());
    lemma_lexes_trans(s, 0, 11, 12, Seq::empty() + seq![id] + Seq::empty() + seq![eq] + Seq::empty(), seq![open]);
    let t = seq![id, eq, open];
    assert(Seq::empty() + seq![id] + Seq::empty() + seq![eq] + Seq::empty() + seq![open] =~= t);
    assert(s.subrange(2, 8) =~= seq![119u8, 105, 100, 116, 104, 115]) by {
        assert forall|k: int| 2 <= k < 8 implies s[k] == h[k] as u8 by {}
    }
    t
}

/// A line feed and `  }` ending the text read as `}` and nothing after.
proof fn lemma_tail_lex(s: Seq<u8>, c: int) -> (t: Tok)
    requires
        0 <= c,
        c + 4 == s.len(),
        s.subrange(c, c + 4) == ascii(seq!['\n'] + "  }"@),
    ensures
        lex_from(s, c) == Ok::<Seq<Tok>, crate::arg_tokens::ArgsError>(seq![t]),
        t.kind == TokKind::Punct && t.val == 125,
{
    reveal_strlit("  }");
    let f = seq!['\n'] + "  }"@;
    assert(f =~= seq!['\n', ' ', ' ', '}']);
    assert forall|k: int| 0 <= k < 4 implies s[c + k] == #[trigger] f[k] as u8 by {
        assert(s.subrange(c, c + 4)[k] == s[c + k]);
    }
    assert(s[c] == 10 && s[c + 1] == 32 && s[c + 2] == 32 && s[c + 3] == 125);
    lemma_spaces_lex(s, c, c + 3);
    let close = Tok { kind: TokKind::Punct, start: (c + 3) as usize, end: (c + 4) as usize, val: 125 };
    assert(token_at(s, c + 3) == Ok::<(Tok, int), crate::arg_tokens::ArgsError>((close, c + 4)));
    lemma_token_lex(s, c + 3, close, c + 4);
    lemma_lexes_trans(s, c, c + 3, c + 4, Seq::empty(), seq![close]);
    assert(lex_from(s, c + 4) == Ok::<Seq<Tok>, crate::arg_tokens::ArgsError>(Seq::empty()));
    assert(Seq::<Tok>::empty() + seq![close] + Seq::<Tok>::empty() =~= seq![close]);
    close
}

/// The text of a widths block reads as `widths`, `=`, `{`, the entries'
/// tokens and `}`.
#[verifier::rlimit(40)]
pub(crate) proof fn lemma_full_lex(text: Seq<u8>, first_cp: u8, widths: Seq<u8>, w: int) -> (all: Seq<Tok>)
    requires
        text == ascii(
            "  widths = {"@ + lines_after(entry_rows(entries_of(first_cp, widths), w)) + seq!['\n'] + "  }"@,
        ),
    ensures
        lex_from(text, 0) == Ok::<Seq<Tok>, crate::arg_tokens::ArgsError>(all),
        all.len() == 3 + 4 * widths.len() + 1,
        all[0].kind == TokKind::Ident && all[0].start == 2 && all[0].end == 8,
        text.subrange(2, 8) == seq![119u8, 105, 100, 116, 104, 115],
        all[1].kind == TokKind::Punct && all[1].val == 61,
        all[2].kind == TokKind::Punct && all[2].val == 123,
        entries_toks(all.subrange(3, 3 + 4 * (widths.len() as int)), entry_pairs(first_cp, widths)),
        all[3 + 4 * (widths.len() as int)].kind == TokKind::Punct,
        all[3 + 4 * (widths.len() as int)].val == 125,
{
    let rows = entry_rows(entries_of(first_cp, widths), w);
    let ps = entry_pairs(first_cp, widths);
    let la = lines_after(rows);
    let ll = la.len() as int;
    let full = "  widths = {"@ + la + seq!['\n'] + "  }"@;
    reveal_strlit("  widths = {");
    reveal_strlit("  }");
    assert(text.subrange(0, full.len() as int) =~= text);
    assert(full.subrange(0, 12) =~= "  widths = {"@);
    lemma_sub_ascii(text, 0, full, 0, "  widths = {"@);
    let head = lemma_head_lex(text);
    let nr = rows.len() as int;
    assert(rows.take(nr) =~= rows);
    assert(full.subrange(12, 12 + ll) =~= la);
    lemma_sub_ascii(text, 0, full, 12, la);
    let body = lemma_rows_lex(text, 12, first_cp, widths, w, nr);
    assert(ps.take(widths.len() as int) =~= ps);
    let c = 12 + ll;
    assert(full.subrange(c, c + 4) =~= seq!['\n'] + "  }"@);
    lemma_sub_ascii(text, 0, full, c, seq!['\n'] + "  }"@);
    let close = lemma_tail_lex(text, c);
    lemma_lexes_trans(text, 0, 12, c, head, body);
    let all = head + body + seq![close];
    assert((head + body) + seq![close] =~= all);
    assert(all[0] == head[0] && all[1] == head[1] && all[2] == head[2]);
    assert(all.subrange(3, 3 + 4 * (ps.len() as int)) =~= body);
    assert(all[3 + 4 * (ps.len() as int)] == close);
    all
}

/// The head of a declaration, `F, "f",`.
pub open spec fn declaration_head() -> Seq<char> {
    seq!['F', ',', ' ', '"', 'f', '"', ',']
}

/// `  widths = {` at byte `q` reads as `widths`, `=` and `{`.
proof fn lemma_head_lex_at(s: Seq<u8>, q: int) -> (t: Seq<Tok>)
    requires
        0 <= q <= 1000,
        q + 12 < s.len(),
        s.subrange(q, q + 12) == ascii("  widths = {"@),
    ensures
        lexes_to(s, q, q + 12, t),
        t.len() == 3,
        t[0].kind == TokKind::Ident && t[0].start == q + 2 && t[0].end == q + 8,
        t[1].kind == TokKind::Punct && t[1].val == 61,
        t[2].kind == TokKind::Punct && t[2].val == 123,
        s.subrange(q + 2, q + 8) == seq![119u8, 105, 100, 116, 104, 115],
{
    reveal_strlit("  widths = {");
    let h = "  widths = {"@;
    assert(h =~= seq![' ', ' ', 'w', 'i', 'd', 't', 'h', 's', ' ', '=', ' ', '{']);
    assert forall|k: int| 0 <= k < 12 implies s[q + k] == #[trigger] h[k] as u8 by {
        assert(s.subrange(q, q + 12)[k] == s[q + k]);
    }
    assert(s[q] == 32 && s[q + 1] == 32 && s[q + 2] == 119 && s[q + 8] == 32 && s[q + 9] == 61 && s[q + 10] == 32
        && s[q + 11] == 123);
    lemma_spaces_lex(s, q, q + 2);
    assert forall|k: int| q + 2 <= k < q + 8 implies is_word_byte(#[trigger] s[k]) by {
        assert(s[k] == h[k - q] as u8);
    }
    lemma_word_run(s, q + 2, q + 8);
    let id = Tok { kind: TokKind::Ident, start: (q + 2) as usize, end: (q + 8) as usize, val: 0 };
    assert(token_at(s, q + 2) == Ok::<(Tok, int), crate::arg_tokens::ArgsError>((id, q + 8)));
    lemma_token_lex(s, q + 2, id, q + 8);
    lemma_spaces_lex(s, q + 8, q + 9);
    let eq = Tok { kind: TokKind::Punct, start: (q + 9) as usize, end: (q + 10) as usize, val: 61 };
    assert(token_at(s, q + 9) == Ok::<(Tok, int), crate::arg_tokens::ArgsError>((eq, q + 10)));
    lemma_token_lex(s, q + 9, eq, q + 10);
    lemma_spaces_lex(s, q + 10, q + 11);
    let open = Tok { kind: TokKind::Punct, start: (q + 11) as usize, end: (q + 12) as usize, val: 123 };
    assert(token_at(s, q + 11) == Ok::<(Tok, int), crate::arg_tokens::ArgsError>((open, q + 12)));
    lemma_token_lex(s, q + 11, open, q + 12);
    lemma_lexes_trans(s, q, q + 2, q + 8, Seq::empty(), seq![id]);
    lemma_lexes_trans(s, q, q + 8, q + 9, Seq::empty() + seq![id], Seq::empty());
    lemma_lexes_trans(s, q, q + 9, q + 10, Seq::empty() + seq![id] + Seq::empty(), seq![eq]);
    lemma_lexes_trans(s, q, q + 10, q + 11, Seq::empty() + seq![id] + Seq::empty() + seq![eq], Seq::empty());
    lemma_lexes_trans(s, q, q + 11, q + 12, Seq::empty() + seq![id] + Seq::empty() + seq![eq] + Seq::empty(), seq![open]);
    let t = seq![id, eq, open];
    assert(Seq::empty() + seq![id] + Seq::empty() + seq![eq] + Seq::empty() + seq![open] =~= t);
    assert(s.subrange(q + 2, q + 8) =~= seq![119u8, 105, 100, 116, 104, 115]) by {
        assert forall|k: int| q + 2 <= k < q + 8 implies s[k] == h[k - q] as u8 by {}
    }
    t
}

/// `F, "f",` reads as the name `F`, a comma, the string `"f"` and a comma.
proof fn lemma_declaration_head_lex(s: Seq<u8>) -> (t: Seq<Tok>)
    requires
        7 < s.len(),
        s.subrange(0, 7) == ascii(declaration_head()),
        s[7] == 32,
    ensures
        lexes_to(s, 0, 7, t),
        t.len() == 4,
        t[0].kind == TokKind::Ident && t[0].start == 0 && t[0].end == 1,
        t[1].kind == TokKind::Punct && t[1].val == 44,
        t[2].kind == TokKind::Str && t[2].start == 3 && t[2].end == 6,
        t[3].kind == TokKind::Punct && t[3].val == 44,
        s.subrange(0, 1) == seq![70u8],
        s.subrange(4, 5) == seq![102u8],
        unescape(s.subrange(4, 5)) == Some(seq![102u8]),
{
    let h = declaration_head();
    assert forall|k: int| 0 <= k < 7 implies s[k] == #[trigger] h[k] as u8 by {
        assert(s.subrange(0, 7)[k] == s[k]);
    }
    assert(s[0] == 70 && s[1] == 44 && s[2] == 32 && s[3] == 34 && s[4] == 102 && s[5] == 34 && s[6] == 44);
    lemma_word_run(s, 0, 1);
    let name = Tok { kind: TokKind::Ident, start: 0usize, end: 1usize, val: 0 };
    assert(token_at(s, 0) == Ok::<(Tok, int), crate::arg_tokens::ArgsError>((name, 1)));
    lemma_token_lex(s, 0, name, 1);
    let c1 = Tok { kind: TokKind::Punct, start: 1usize, end: 2usize, val: 44 };
    assert(token_at(s, 1) == Ok::<(Tok, int), crate::arg_tokens::ArgsError>((c1, 2)));
    lemma_token_lex(s, 1, c1, 2);
    lemma_spaces_lex(s, 2, 3);
    assert(string_close(s, 5) == Some(5int));
    assert(string_close(s, 4) == Some(5int));
    assert(s.subrange(4, 5) =~= seq![102u8]);
    let p = s.subrange(4, 5);
    assert(p[0] == 102);
    assert(p.skip(1) =~= Seq::<u8>::empty());
    assert(unescape(Seq::<u8>::empty()) == Some(Seq::<u8>::empty()));
    assert(unescape(p) == Some(seq![102u8] + Seq::<u8>::empty()));
    assert(seq![102u8] + Seq::<u8>::empty() =~= seq![102u8]);
    let path = Tok { kind: TokKind::Str, start: 3usize, end: 6usize, val: 0 };
    assert(token_at(s, 3) == Ok::<(Tok, int), crate::arg_tokens::ArgsError>((path, 6)));
    lemma_token_lex(s, 3, path, 6);
    let c2 = Tok { kind: TokKind::Punct, start: 6usize, end: 7usize, val: 44 };
    assert(token_at(s, 6) == Ok::<(Tok, int), crate::arg_tokens::ArgsError>((c2, 7)));
    lemma_token_lex(s, 6, c2, 7);
    lemma_lexes_trans(s, 0, 1, 2, seq![name], seq![c1]);
    lemma_lexes_trans(s, 0, 2, 3, seq![name] + seq![c1], Seq::empty());
    lemma_lexes_trans(s, 0, 3, 6, seq![name] + seq![c1] + Seq::empty(), seq![path]);
    lemma_lexes_trans(s, 0, 6, 7, seq![name] + seq![c1] + Seq::empty() + seq![path], seq![c2]);
    let t = seq![name, c1, path, c2];
    assert(seq![name] + seq![c1] + Seq::empty() + seq![path] + seq![c2] =~= t);
    assert(s.subrange(0, 1) =~= seq![70u8]);
    t
}

/// A declaration `F, "f",` followed by a widths block of one entry reads as
/// the name, a comma, the path, a comma, `widths`, `=`, `{`, the entry's
/// tokens and `}`.
#[verifier::rlimit(60)]
pub(crate) proof fn lemma_declaration_lex(text: Seq<u8>, cp: u8, w: u8, wd: int) -> (all: Seq<Tok>)
    requires
        text == ascii(
            declaration_head() + "  widths = {"@ + lines_after(entry_rows(entries_of(cp, seq![w]), wd)) + seq!['\n']
                + "  }"@,
        ),
    ensures
        lex_from(text, 0) == Ok::<Seq<Tok>, crate::arg_tokens::ArgsError>(all),
        all.len() == 12,
        all[0].kind == TokKind::Ident && all[0].start == 0 && all[0].end == 1,
        text.subrange(0, 1) == seq![70u8],
        all[1].kind == TokKind::Punct && all[1].val == 44,
        all[2].kind == TokKind::Str && all[2].start == 3 && all[2].end == 6,
        text.subrange(4, 5) == seq![102u8],
        unescape(text.subrange(4, 5)) == Some(seq![102u8]),
        all[3].kind == TokKind::Punct && all[3].val == 44,
        all[4].kind == TokKind::Ident && all[4].start == 9 && all[4].end == 15,
        text.subrange(9, 15) == seq![119u8, 105, 100, 116, 104, 115],
        all[5].kind == TokKind::Punct && all[5].val == 61,
        all[6].kind == TokKind::Punct && all[6].val == 123,
        entry_toks(all.subrange(7, 11), cp, w),
        all[11].kind == TokKind::Punct && all[11].val == 125,
{
    let widths = seq![w];
    let rows = entry_rows(entries_of(cp, widths), wd);
    let ps = entry_pairs(cp, widths);
    let la = lines_after(rows);
    let ll = la.len() as int;
    let hd = declaration_head();
    let full = hd + "  widths = {"@ + la + seq!['\n'] + "  }"@;
    reveal_strlit("  widths = {");
    reveal_strlit("  }");
    assert(text.subrange(0, full.len() as int) =~= text);
    assert(full.subrange(0, 7) =~= hd);
    lemma_sub_ascii(text, 0, full, 0, hd);
    assert(full[7] == ' ');
    let head = lemma_declaration_head_lex(text);
    assert(full.subrange(7, 19) =~= "  widths = {"@);
    lemma_sub_ascii(text, 0, full, 7, "  widths = {"@);
    let wh = lemma_head_lex_at(text, 7);
    let nr = rows.len() as int;
    assert(rows.take(nr) =~= rows);
    assert(full.subrange(19, 19 + ll) =~= la);
    lemma_sub_ascii(text, 0, full, 19, la);
    let body = lemma_rows_lex(text, 19, cp, widths, wd, nr);
    assert(widths.len() == 1);
    assert(ps.take(1) =~= ps);
    let c = 19 + ll;
    assert(full.subrange(c, c + 4) =~= seq!['\n'] + "  }"@);
    lemma_sub_ascii(text, 0, full, c, seq!['\n'] + "  }"@);
    let close = lemma_tail_lex(text, c);
    lemma_lexes_trans(text, 0, 7, 19, head, wh);
    lemma_lexes_trans(text, 0, 19, c, head + wh, body);
    let all = head + wh + body + seq![close];
    assert((head + wh + body) + seq![close] =~= all);
    assert(body.len() == 4);
    assert(all[0] == head[0] && all[1] == head[1] && all[2] == head[2] && all[3] == head[3]);
    assert(all[4] == wh[0] && all[5] == wh[1] && all[6] == wh[2]);
    assert(all.subrange(7, 11) =~= body);
    assert(body.subrange(0, 4) =~= body);
    assert(ps[0] == (cp, w));
    assert(entries_toks(body, ps.take(1)));
    let m0: int = 0;
    assert(ps.take(1)[m0] == (cp, w));
    assert(entry_toks(body.subrange(4 * m0, 4 * m0 + 4), cp, w));
    assert(body.subrange(4 * m0, 4 * m0 + 4) =~= body.subrange(0, 4));
    assert(all[11] == close);
    all
}

/// The pasted widths block reads as `widths`, `=`, `{`, an entry per glyph
/// and `}`; as an argument it adds every glyph's code point and stored width
/// to the width overrides, in order.
pub(crate) proof fn lemma_block_pastes(
    a: ArgsView,
    name: Seq<char>,
    path: Seq<char>,
    bytes: Seq<u8>,
    glyph_count: int,
    base: ArgsView,
)
    requires
        0 <= glyph_count,
        3 + glyph_count <= bytes.len(),
    ensures
        ({
            let text = pasted_block(a, name, path, bytes, glyph_count);
            let ps = entry_pairs(first_code_point(bytes[0]), bytes.subrange(3, 3 + glyph_count));
            &&& lex_from(text, 0) is Ok
            &&& ident_word(text, lex_from(text, 0)->Ok_0, 0) == Some(Word::Widths)
            &&& apply_option(text, lex_from(text, 0)->Ok_0, 1, Word::Widths, base) == Ok::<
                (int, ArgsView),
                crate::arg_tokens::ArgsError,
            >((lex_from(text, 0)->Ok_0.len() as int, ArgsView { widths: base.widths + ps, ..base }))
        }),
{
    let first_cp = first_code_point(bytes[0]);
    let widths = bytes.subrange(3, 3 + glyph_count);
    let es = entries_of(first_cp, widths);
    let text = pasted_block(a, name, path, bytes, glyph_count);
    let ps = entry_pairs(first_cp, widths);
    lemma_block_text(a, name, path, bytes, glyph_count);
    let all = lemma_full_lex(text, first_cp, widths, max_len(es));
    lemma_widths_body_reads(text, all, ps, 0, base);
    assert(ps.skip(0) =~= ps);
}

} // verus!

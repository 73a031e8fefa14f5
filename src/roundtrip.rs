//! Reading back what was written: a printable text map, written out and
//! read again, gives the same map.

use vstd::prelude::*;
use crate::lexer::{
    is_blank, is_digit, is_ident_char, is_ident_start, lex, main_step, number_value, digits_value, prepend,
    prefix_with, LexMode, ParseError, ParseErrorKind, Token, CH_MINUS, CH_QUOTE, CH_ZERO,
};
use crate::mda::mda_text;
use crate::pvheader::PvArea;
use crate::textmap::disk_fields;
use crate::parser::{lemma_key_pos, lemma_key_pos_is, lookup, map_insert, parse_list, parse_map, parse_text, entry_text, int_text, key_pos, list_text, map_text, nat_digits, scalar_text, Value};
use crate::lexer::{CH_BRACKET_CLOSE, CH_BRACKET_OPEN, CH_COMMA, CH_CURLY_CLOSE, CH_CURLY_OPEN, CH_EQUALS, CH_NL, CH_SPACE};

verus! {

/// A run of blanks is skipped by the lexer.
proof fn lemma_lex_blanks(s: Seq<u8>, p: int, q: int, id: bool)
    requires
        0 <= p <= q < s.len(),
        forall|j: int| p <= j < q ==> is_blank(#[trigger] s[j]),
    ensures
        lex(s, p, LexMode::Main, id) == lex(s, q, LexMode::Main, id),
    decreases q - p,
{
    if p < q {
        assert(lex(s, p, LexMode::Main, id) == main_step(s, p, id));
        assert(main_step(s, p, id) == lex(s, p + 1, LexMode::Main, id));
        lemma_lex_blanks(s, p + 1, q, id);
    }
}

/// An identifier runs to the first byte that cannot continue it.
proof fn lemma_lex_ident(s: Seq<u8>, a: int, i: int, b: int, id: bool)
    requires
        0 <= a < i <= b < s.len(),
        s.len() <= usize::MAX,
        forall|j: int| i <= j < b ==> is_ident_char(#[trigger] s[j]),
        !is_ident_char(s[b]),
    ensures
        lex(s, i, LexMode::Ident(a as usize), id) == prepend(Token::Ident(a as usize, b as usize), main_step(s, b, false)),
    decreases b - i,
{
    if i < b {
        lemma_lex_ident(s, a, i + 1, b, id);
    }
}

/// A string runs to the next quote.
proof fn lemma_lex_string(s: Seq<u8>, a: int, i: int, b: int, id: bool)
    requires
        0 <= a < i <= b < s.len(),
        s.len() <= usize::MAX,
        s[b] == CH_QUOTE,
        forall|j: int| i <= j < b ==> #[trigger] s[j] != CH_QUOTE,
    ensures
        lex(s, i, LexMode::String(a as usize), id) == prepend(Token::String((a + 1) as usize, b as usize), lex(s, b + 1, LexMode::Main, id)),
    decreases b - i,
{
    if i < b {
        lemma_lex_string(s, a, i + 1, b, id);
    }
}

/// A number runs to the first byte that is not a digit.
proof fn lemma_lex_digits(s: Seq<u8>, a: int, i: int, b: int, id: bool)
    requires
        0 <= a < i <= b < s.len(),
        s.len() <= usize::MAX,
        forall|j: int| i <= j < b ==> is_digit(#[trigger] s[j]),
        !is_digit(s[b]),
    ensures
        lex(s, i, LexMode::Number(a as usize), id) == match number_value(s, a, b) {
            Some(v) => prepend(Token::Number(v), main_step(s, b, id)),
            None => Err(ParseError { kind: ParseErrorKind::BadNumber, position: a as usize }),
        },
    decreases b - i,
{
    if i < b {
        lemma_lex_digits(s, a, i + 1, b, id);
    }
}

proof fn lemma_nat_digits(n: nat)
    ensures
        nat_digits(n).len() > 0,
        forall|j: int| 0 <= j < nat_digits(n).len() ==> is_digit(#[trigger] nat_digits(n)[j]),
    decreases n,
{
    if n >= 10 {
        lemma_nat_digits(n / 10);
        let d = nat_digits(n / 10);
        assert forall|j: int| 0 <= j < nat_digits(n).len() implies is_digit(#[trigger] nat_digits(n)[j]) by {
            if j < d.len() {
                assert(nat_digits(n)[j] == d[j]);
            }
        }
    }
}

/// The digits written for `n` read back as `n`.
proof fn lemma_digits_value_of(s: Seq<u8>, a: int, n: nat)
    requires
        0 <= a,
        a + nat_digits(n).len() <= s.len(),
        s.subrange(a, a + nat_digits(n).len()) == nat_digits(n),
    ensures
        digits_value(s, a, a + nat_digits(n).len()) == n,
    decreases n,
{
    let d = nat_digits(n);
    let b = a + d.len();
    if n >= 10 {
        let d1 = nat_digits(n / 10);
        assert(d == d1 + seq![(CH_ZERO + n % 10) as u8]);
        assert(s.subrange(a, a + d1.len()) == d1) by {
            assert(s.subrange(a, a + d1.len()) =~= s.subrange(a, b).subrange(0, d1.len() as int));
        }
        lemma_digits_value_of(s, a, n / 10);
        assert(s[b - 1] == d[d.len() - 1]) by {
            assert(s.subrange(a, b)[d.len() - 1] == s[b - 1]);
        }
    } else {
        assert(s[a] == d[0]) by {
            assert(s.subrange(a, b)[0] == s[a]);
        }
        assert(digits_value(s, a, a) == 0);
    }
}

/// The text written for a 64-bit number reads back as that number.
proof fn lemma_lex_number(s: Seq<u8>, a: int, n: int)
    requires
        i64::MIN <= n <= i64::MAX,
        0 <= a,
        a + int_text(n).len() < s.len(),
        s.len() <= usize::MAX,
        s.subrange(a, a + int_text(n).len()) == int_text(n),
        !is_digit(s[a + int_text(n).len()]),
    ensures
        main_step(s, a, false) == prepend(Token::Number(n as i64), main_step(s, a + int_text(n).len(), false)),
{
    let t = int_text(n);
    let b = a + t.len();
    if n < 0 {
        let m = (-n) as nat;
        lemma_nat_digits(m);
        assert(t == seq![CH_MINUS] + nat_digits(m));
        assert(s[a] == CH_MINUS) by {
            assert(s.subrange(a, b)[0] == s[a]);
        }
        assert(s.subrange(a + 1, b) == nat_digits(m)) by {
            assert(s.subrange(a + 1, b) =~= s.subrange(a, b).subrange(1, t.len() as int));
        }
        assert forall|j: int| a + 1 <= j < b implies is_digit(#[trigger] s[j]) by {
            assert(s.subrange(a + 1, b)[j - a - 1] == s[j]);
        }
        lemma_digits_value_of(s, a + 1, m);
        lemma_lex_digits(s, a, a + 1, b, false);
    } else {
        let m = n as nat;
        lemma_nat_digits(m);
        assert forall|j: int| a <= j < b implies is_digit(#[trigger] s[j]) by {
            assert(s.subrange(a, b)[j - a] == s[j]);
        }
        lemma_digits_value_of(s, a, m);
        assert(is_digit(s[a]));
        lemma_lex_digits(s, a, a + 1, b, false);
    }
}

/// A key the lexer reads back as one identifier: it starts with a letter,
/// `_` or `.`, or, where `lead` holds (right after a `{`), with any byte an
/// identifier may hold.
pub open spec fn key_ok(k: Seq<u8>, lead: bool) -> bool {
    k.len() > 0 && (lead || is_ident_start(k[0])) && forall|i: int| 0 <= i < k.len() ==> is_ident_char(#[trigger] k[i])
}

/// A string without quotes.
pub open spec fn str_ok(t: Seq<u8>) -> bool {
    forall|i: int| 0 <= i < t.len() ==> #[trigger] t[i] != CH_QUOTE
}

pub open spec fn scalar_ok(v: Value) -> bool {
    match v {
        Value::Num(n) => i64::MIN <= n <= i64::MAX,
        Value::Str(t) => str_ok(t),
        _ => false,
    }
}

pub open spec fn list_ok(l: Seq<Value>) -> bool {
    forall|i: int| 0 <= i < l.len() ==> scalar_ok(#[trigger] l[i])
}

pub open spec fn value_ok(v: Value) -> bool
    decreases v,
{
    match v {
        Value::List(l) => list_ok(l),
        Value::Section(m) => map_ok(m, true),
        _ => scalar_ok(v),
    }
}

/// A map that can be written and read back: keys are unique identifiers
/// that start with a letter, `_` or `.` (the first key may also start with
/// a digit or `-` where `first` holds, as in a section); strings hold no
/// quote; numbers fit in 64 bits; lists hold numbers and strings only.
pub open spec fn map_ok(m: Seq<(Seq<u8>, Value)>, first: bool) -> bool
    decreases m,
{
    m.len() == 0 || (map_ok(m.drop_last(), first) && key_ok(m.last().0, first && m.len() == 1) && value_ok(m.last().1)
        && key_pos(m.drop_last(), m.last().0) == -1)
}

/// A top-level map that can be written and read back.
pub open spec fn printable(m: Seq<(Seq<u8>, Value)>) -> bool {
    map_ok(m, false)
}

pub open spec fn spaces(ind: Seq<u8>) -> bool {
    forall|i: int| 0 <= i < ind.len() ==> #[trigger] ind[i] == CH_SPACE
}

pub open spec fn scalar_tok(v: Value, p: int) -> Token {
    match v {
        Value::Num(n) => Token::Number(n as i64),
        Value::Str(t) => Token::String((p + 1) as usize, (p + 1 + t.len()) as usize),
        _ => Token::Comma,
    }
}

/// The tokens of a list's text that starts at byte `p`.
pub open spec fn list_toks(l: Seq<Value>, p: int) -> Seq<Token>
    decreases l.len(),
{
    if l.len() == 0 {
        seq![]
    } else if l.len() == 1 {
        seq![scalar_tok(l[0], p)]
    } else {
        list_toks(l.drop_last(), p) + seq![Token::Comma, scalar_tok(l.last(), p + list_text(l.drop_last()).len() + 2)]
    }
}

/// The tokens of an entry's text that starts at byte `p`.
pub open spec fn entry_toks(k: Seq<u8>, v: Value, ind: Seq<u8>, p: int) -> Seq<Token>
    decreases v,
{
    let kp = p + ind.len();
    let ke = kp + k.len();
    let key = Token::Ident(kp as usize, ke as usize);
    match v {
        Value::List(l) => seq![key, Token::Equals, Token::BracketOpen] + list_toks(l, ke + 4) + seq![Token::BracketClose],
        Value::Section(m) => seq![key, Token::CurlyOpen] + map_toks(m, ind + seq![CH_SPACE, CH_SPACE], ke + 3)
            + seq![Token::CurlyClose],
        _ => seq![key, Token::Equals, scalar_tok(v, ke + 3)],
    }
}

/// The tokens of a map's text that starts at byte `p`.
pub open spec fn map_toks(m: Seq<(Seq<u8>, Value)>, ind: Seq<u8>, p: int) -> Seq<Token>
    decreases m,
{
    if m.len() == 0 {
        seq![]
    } else {
        map_toks(m.drop_last(), ind, p) + entry_toks(m.last().0, m.last().1, ind, p + map_text(m.drop_last(), ind).len())
    }
}

/// The lexer's identifier flag after an entry.
pub open spec fn entry_flag(v: Value) -> bool
    decreases v,
{
    match v {
        Value::Section(m) => map_flag(m, true),
        _ => false,
    }
}

/// The lexer's identifier flag after a map entered with flag `f`.
pub open spec fn map_flag(m: Seq<(Seq<u8>, Value)>, f: bool) -> bool
    decreases m,
{
    if m.len() == 0 {
        f
    } else {
        entry_flag(m.last().1)
    }
}

proof fn lemma_split(s: Seq<u8>, a: int, x: Seq<u8>, y: Seq<u8>)
    requires
        0 <= a,
        a + x.len() + y.len() <= s.len(),
        s.subrange(a, a + x.len() + y.len()) == x + y,
    ensures
        s.subrange(a, a + x.len()) == x,
        s.subrange(a + x.len(), a + x.len() + y.len()) == y,
{
    assert(s.subrange(a, a + x.len()) =~= (x + y).subrange(0, x.len() as int));
    assert(s.subrange(a + x.len(), a + x.len() + y.len()) =~= (x + y).subrange(x.len() as int, (x.len() + y.len()) as int));
}

proof fn lemma_at(s: Seq<u8>, a: int, x: Seq<u8>, i: int)
    requires
        0 <= a,
        a + x.len() <= s.len(),
        s.subrange(a, a + x.len()) == x,
        0 <= i < x.len(),
    ensures
        s[a + i] == x[i],
{
    assert(s.subrange(a, a + x.len())[i] == s[a + i]);
}

proof fn lemma_prefix_assoc(a: Seq<Token>, b: Seq<Token>, r: Result<Seq<Token>, ParseError>)
    ensures
        prefix_with(a, prefix_with(b, r)) == prefix_with(a + b, r),
{
    match r {
        Ok(ts) => {
            assert(a + (b + ts) =~= (a + b) + ts);
        },
        Err(_) => {},
    }
}

proof fn lemma_prepend_is_prefix(t: Token, r: Result<Seq<Token>, ParseError>)
    ensures
        prepend(t, r) == prefix_with(seq![t], r),
{
}

/// A number or a string is read back as its token.
proof fn lemma_lex_scalar(s: Seq<u8>, v: Value, p: int)
    requires
        scalar_ok(v),
        0 <= p,
        p + scalar_text(v).len() < s.len(),
        s.len() <= usize::MAX,
        s.subrange(p, p + scalar_text(v).len()) == scalar_text(v),
        !is_digit(s[p + scalar_text(v).len()]),
    ensures
        lex(s, p, LexMode::Main, false) == prepend(scalar_tok(v, p), lex(s, p + scalar_text(v).len(), LexMode::Main, false)),
{
    let e = p + scalar_text(v).len();
    match v {
        Value::Num(n) => {
            lemma_lex_number(s, p, n);
            assert(lex(s, p, LexMode::Main, false) == main_step(s, p, false));
            assert(lex(s, e, LexMode::Main, false) == main_step(s, e, false));
        },
        Value::Str(t) => {
            let x = seq![CH_QUOTE] + t + seq![CH_QUOTE];
            assert(scalar_text(v) == x);
            lemma_at(s, p, x, 0);
            lemma_at(s, p, x, x.len() - 1);
            assert forall|j: int| p + 1 <= j < e - 1 implies #[trigger] s[j] != CH_QUOTE by {
                lemma_at(s, p, x, j - p);
                assert(x[j - p] == t[j - p - 1]);
            }
            assert(lex(s, p, LexMode::Main, false) == main_step(s, p, false));
            lemma_lex_string(s, p, p + 1, e - 1, false);
        },
        _ => {},
    }
}

/// A list's items are read back as their tokens.
proof fn lemma_lex_list(s: Seq<u8>, l: Seq<Value>, p: int)
    requires
        list_ok(l),
        0 <= p,
        p + list_text(l).len() < s.len(),
        s.len() <= usize::MAX,
        s.subrange(p, p + list_text(l).len()) == list_text(l),
        !is_digit(s[p + list_text(l).len()]),
    ensures
        lex(s, p, LexMode::Main, false) == prefix_with(list_toks(l, p), lex(s, p + list_text(l).len(), LexMode::Main, false)),
    decreases l.len(),
{
    let e = p + list_text(l).len();
    if l.len() == 0 {
        match lex(s, p, LexMode::Main, false) {
            Ok(ts) => assert(seq![] + ts =~= ts),
            Err(_) => {},
        }
    } else if l.len() == 1 {
        assert(list_text(l) == scalar_text(l[0]));
        lemma_lex_scalar(s, l[0], p);
    } else {
        let l1 = l.drop_last();
        let t1 = list_text(l1);
        let x = seq![CH_COMMA, CH_SPACE];
        let y = scalar_text(l.last());
        assert(list_text(l) == t1 + x + y);
        lemma_split(s, p, t1 + x, y);
        lemma_split(s, p, t1, x);
        let c = p + t1.len();
        lemma_at(s, c, x, 0);
        lemma_at(s, c, x, 1);
        assert(list_ok(l1)) by {
            assert forall|i: int| 0 <= i < l1.len() implies scalar_ok(#[trigger] l1[i]) by {
                assert(l1[i] == l[i]);
            }
        }
        lemma_lex_list(s, l1, p);
        assert(lex(s, c, LexMode::Main, false) == main_step(s, c, false));
        assert(lex(s, c + 1, LexMode::Main, false) == main_step(s, c + 1, false));
        assert(list_ok(l));
        assert(scalar_ok(l[l.len() - 1]));
        lemma_lex_scalar(s, l.last(), c + 2);
        let r = lex(s, e, LexMode::Main, false);
        let tok = scalar_tok(l.last(), c + 2);
        assert(lex(s, c, LexMode::Main, false) == prepend(Token::Comma, prepend(tok, r)));
        lemma_prepend_is_prefix(tok, r);
        lemma_prepend_is_prefix(Token::Comma, prefix_with(seq![tok], r));
        lemma_prefix_assoc(seq![Token::Comma], seq![tok], r);
        lemma_prefix_assoc(list_toks(l1, p), seq![Token::Comma] + seq![tok], r);
        assert(list_toks(l, p) == list_toks(l1, p) + (seq![Token::Comma] + seq![tok]));
    }
}

proof fn lemma_sub(s: Seq<u8>, p: int, x: Seq<u8>, a: int, b: int)
    requires
        0 <= p,
        p + x.len() <= s.len(),
        s.subrange(p, p + x.len()) == x,
        0 <= a <= b <= x.len(),
    ensures
        s.subrange(p + a, p + b) == x.subrange(a, b),
{
    assert(s.subrange(p + a, p + b) =~= s.subrange(p, p + x.len()).subrange(a, b));
}

proof fn lemma_prepend_chain(ts: Seq<Token>, r: Result<Seq<Token>, ParseError>)
    ensures
        ts.len() == 1 ==> prepend(ts[0], r) == prefix_with(ts, r),
        ts.len() == 2 ==> prepend(ts[0], prepend(ts[1], r)) == prefix_with(ts, r),
        ts.len() == 3 ==> prepend(ts[0], prepend(ts[1], prepend(ts[2], r))) == prefix_with(ts, r),
{
    match r {
        Ok(x) => {
            if ts.len() == 1 {
                assert(seq![ts[0]] + x =~= ts + x);
            }
            if ts.len() == 2 {
                assert(seq![ts[0]] + (seq![ts[1]] + x) =~= ts + x);
            }
            if ts.len() == 3 {
                assert(seq![ts[0]] + (seq![ts[1]] + (seq![ts[2]] + x)) =~= ts + x);
            }
        },
        Err(_) => {},
    }
}

/// The indentation and key of an entry are read back as the key's token.
proof fn lemma_lex_entry_key(s: Seq<u8>, k: Seq<u8>, v: Value, ind: Seq<u8>, p: int, f: bool, lead: bool)
    requires
        key_ok(k, lead),
        lead ==> f,
        spaces(ind),
        0 <= p,
        p + entry_text(k, v, ind).len() <= s.len(),
        s.len() <= usize::MAX,
        s.subrange(p, p + entry_text(k, v, ind).len()) == entry_text(k, v, ind),
    ensures
        p + ind.len() + k.len() + 3 <= s.len(),
        lex(s, p, LexMode::Main, f) == prepend(Token::Ident((p + ind.len()) as usize, (p + ind.len() + k.len()) as usize),
            lex(s, p + ind.len() + k.len() + 1, LexMode::Main, false)),
{
    let et = entry_text(k, v, ind);
    let kp = p + ind.len();
    let ke = kp + k.len();
    assert(et.subrange(0, ind.len() as int) =~= ind);
    assert(et.subrange(ind.len() as int, (ind.len() + k.len()) as int) =~= k);
    assert(et[ke - p] == CH_SPACE);
    assert forall|j: int| p <= j < kp implies is_blank(#[trigger] s[j]) by {
        lemma_at(s, p, et, j - p);
    }
    lemma_at(s, p, et, kp - p);
    assert(s[kp] == k[0]);
    assert forall|j: int| kp + 1 <= j < ke implies is_ident_char(#[trigger] s[j]) by {
        lemma_at(s, p, et, j - p);
        assert(et[j - p] == k[j - kp]);
    }
    lemma_at(s, p, et, ke - p);
    lemma_lex_blanks(s, p, kp, f);
    assert(lex(s, kp, LexMode::Main, f) == main_step(s, kp, f));
    assert(main_step(s, kp, f) == lex(s, kp + 1, LexMode::Ident(kp as usize), f));
    lemma_lex_ident(s, kp, kp + 1, ke, f);
    assert(main_step(s, ke, false) == lex(s, ke + 1, LexMode::Main, false));
}

/// An assignment of a number or a string is read back as its tokens.
#[verifier::rlimit(50)]
proof fn lemma_lex_entry_scalar(s: Seq<u8>, k: Seq<u8>, v: Value, ind: Seq<u8>, p: int, f: bool, lead: bool)
    requires
        key_ok(k, lead),
        lead ==> f,
        scalar_ok(v),
        spaces(ind),
        0 <= p,
        p + entry_text(k, v, ind).len() <= s.len(),
        s.len() <= usize::MAX,
        s.subrange(p, p + entry_text(k, v, ind).len()) == entry_text(k, v, ind),
    ensures
        lex(s, p, LexMode::Main, f) == prefix_with(entry_toks(k, v, ind, p),
            lex(s, p + entry_text(k, v, ind).len(), LexMode::Main, entry_flag(v))),
{
    let et = entry_text(k, v, ind);
    let q = p + et.len();
    let kp = p + ind.len();
    let ke = kp + k.len();
    let key = Token::Ident(kp as usize, ke as usize);
    lemma_lex_entry_key(s, k, v, ind, p, f, lead);
    let st = scalar_text(v);
    let e2 = ke + 3 + st.len();
    assert(et == ind + k + seq![CH_SPACE, CH_EQUALS, CH_SPACE] + st + seq![CH_NL]);
    lemma_at(s, p, et, ke + 1 - p);
    lemma_at(s, p, et, ke + 2 - p);
    lemma_at(s, p, et, e2 - p);
    lemma_sub(s, p, et, ke + 3 - p, e2 - p);
    assert(et.subrange(ke + 3 - p, e2 - p) =~= st);
    assert(lex(s, ke + 1, LexMode::Main, false) == main_step(s, ke + 1, false));
    assert(lex(s, ke + 2, LexMode::Main, false) == main_step(s, ke + 2, false));
    lemma_lex_scalar(s, v, ke + 3);
    assert(lex(s, e2, LexMode::Main, false) == main_step(s, e2, false));
    let r = lex(s, q, LexMode::Main, false);
    let tok = scalar_tok(v, ke + 3);
    lemma_prepend_chain(seq![key, Token::Equals, tok], r);
    assert(entry_toks(k, v, ind, p) =~= seq![key, Token::Equals, tok]);
}

/// An assignment of a list is read back as its tokens.
#[verifier::rlimit(50)]
proof fn lemma_lex_entry_list(s: Seq<u8>, k: Seq<u8>, l: Seq<Value>, ind: Seq<u8>, p: int, f: bool, lead: bool)
    requires
        key_ok(k, lead),
        lead ==> f,
        list_ok(l),
        spaces(ind),
        0 <= p,
        p + entry_text(k, Value::List(l), ind).len() <= s.len(),
        s.len() <= usize::MAX,
        s.subrange(p, p + entry_text(k, Value::List(l), ind).len()) == entry_text(k, Value::List(l), ind),
    ensures
        lex(s, p, LexMode::Main, f) == prefix_with(entry_toks(k, Value::List(l), ind, p),
            lex(s, p + entry_text(k, Value::List(l), ind).len(), LexMode::Main, false)),
{
    let v = Value::List(l);
    let et = entry_text(k, v, ind);
    let q = p + et.len();
    let kp = p + ind.len();
    let ke = kp + k.len();
    let key = Token::Ident(kp as usize, ke as usize);
    lemma_lex_entry_key(s, k, v, ind, p, f, lead);
    let lt = list_text(l);
    let e2 = ke + 4 + lt.len();
    assert(et == ind + k + seq![CH_SPACE, CH_EQUALS, CH_SPACE, CH_BRACKET_OPEN] + lt + seq![CH_BRACKET_CLOSE, CH_NL]);
    lemma_at(s, p, et, ke + 1 - p);
    lemma_at(s, p, et, ke + 2 - p);
    lemma_at(s, p, et, ke + 3 - p);
    lemma_at(s, p, et, e2 - p);
    lemma_at(s, p, et, e2 + 1 - p);
    lemma_sub(s, p, et, ke + 4 - p, e2 - p);
    assert(et.subrange(ke + 4 - p, e2 - p) =~= lt);
    assert(lex(s, ke + 1, LexMode::Main, false) == main_step(s, ke + 1, false));
    assert(lex(s, ke + 2, LexMode::Main, false) == main_step(s, ke + 2, false));
    assert(lex(s, ke + 3, LexMode::Main, false) == main_step(s, ke + 3, false));
    lemma_lex_list(s, l, ke + 4);
    assert(lex(s, e2, LexMode::Main, false) == main_step(s, e2, false));
    assert(main_step(s, e2, false) == prepend(Token::BracketClose, lex(s, e2 + 1, LexMode::Main, false)));
    assert(lex(s, e2 + 1, LexMode::Main, false) == main_step(s, e2 + 1, false));
    let r = lex(s, q, LexMode::Main, false);
    lemma_prepend_chain(seq![Token::BracketClose], r);
    lemma_prefix_assoc(list_toks(l, ke + 4), seq![Token::BracketClose], r);
    lemma_prepend_chain(seq![key, Token::Equals, Token::BracketOpen], prefix_with(list_toks(l, ke + 4) + seq![Token::BracketClose], r));
    lemma_prefix_assoc(seq![key, Token::Equals, Token::BracketOpen], list_toks(l, ke + 4) + seq![Token::BracketClose], r);
    assert(entry_toks(k, v, ind, p) =~= seq![key, Token::Equals, Token::BracketOpen] + (list_toks(l, ke + 4) + seq![Token::BracketClose]));
}

/// A section is read back as its tokens.
#[verifier::rlimit(50)]
proof fn lemma_lex_entry_section(s: Seq<u8>, k: Seq<u8>, m: Seq<(Seq<u8>, Value)>, ind: Seq<u8>, p: int, f: bool, lead: bool)
    requires
        key_ok(k, lead),
        lead ==> f,
        map_ok(m, true),
        spaces(ind),
        0 <= p,
        p + entry_text(k, Value::Section(m), ind).len() <= s.len(),
        s.len() <= usize::MAX,
        s.subrange(p, p + entry_text(k, Value::Section(m), ind).len()) == entry_text(k, Value::Section(m), ind),
    ensures
        lex(s, p, LexMode::Main, f) == prefix_with(entry_toks(k, Value::Section(m), ind, p),
            lex(s, p + entry_text(k, Value::Section(m), ind).len(), LexMode::Main, map_flag(m, true))),
    decreases Value::Section(m), 0int,
{
    let v = Value::Section(m);
    let et = entry_text(k, v, ind);
    let q = p + et.len();
    let kp = p + ind.len();
    let ke = kp + k.len();
    let key = Token::Ident(kp as usize, ke as usize);
    lemma_lex_entry_key(s, k, v, ind, p, f, lead);
    let ind2 = ind + seq![CH_SPACE, CH_SPACE];
    let mt = map_text(m, ind2);
    let r1 = ke + 3 + mt.len();
    assert(et == ind + k + seq![CH_SPACE, CH_CURLY_OPEN, CH_NL] + mt + ind + seq![CH_CURLY_CLOSE, CH_NL]);
    lemma_at(s, p, et, ke + 1 - p);
    lemma_at(s, p, et, ke + 2 - p);
    lemma_sub(s, p, et, ke + 3 - p, r1 - p);
    assert(et.subrange(ke + 3 - p, r1 - p) =~= mt);
    assert forall|j: int| r1 <= j < r1 + ind.len() implies is_blank(#[trigger] s[j]) by {
        lemma_at(s, p, et, j - p);
        assert(et[j - p] == ind[j - r1]);
    }
    let c = r1 + ind.len();
    lemma_at(s, p, et, c - p);
    lemma_at(s, p, et, c + 1 - p);
    assert(spaces(ind2));
    assert(lex(s, ke + 1, LexMode::Main, false) == main_step(s, ke + 1, false));
    assert(main_step(s, ke + 1, false) == prepend(Token::CurlyOpen, lex(s, ke + 2, LexMode::Main, true)));
    assert(lex(s, ke + 2, LexMode::Main, true) == main_step(s, ke + 2, true));
    lemma_lex_map(s, m, ind2, ke + 3, true);
    let g = map_flag(m, true);
    lemma_lex_blanks(s, r1, c, g);
    assert(lex(s, c, LexMode::Main, g) == main_step(s, c, g));
    assert(main_step(s, c, g) == prepend(Token::CurlyClose, lex(s, c + 1, LexMode::Main, g)));
    assert(lex(s, c + 1, LexMode::Main, g) == main_step(s, c + 1, g));
    let r = lex(s, q, LexMode::Main, g);
    lemma_prepend_chain(seq![Token::CurlyClose], r);
    lemma_prefix_assoc(map_toks(m, ind2, ke + 3), seq![Token::CurlyClose], r);
    lemma_prepend_chain(seq![key, Token::CurlyOpen], prefix_with(map_toks(m, ind2, ke + 3) + seq![Token::CurlyClose], r));
    lemma_prefix_assoc(seq![key, Token::CurlyOpen], map_toks(m, ind2, ke + 3) + seq![Token::CurlyClose], r);
    assert(entry_toks(k, v, ind, p) =~= seq![key, Token::CurlyOpen] + (map_toks(m, ind2, ke + 3) + seq![Token::CurlyClose]));
}

/// An entry's text is read back as its tokens.
proof fn lemma_lex_entry(s: Seq<u8>, k: Seq<u8>, v: Value, ind: Seq<u8>, p: int, f: bool, lead: bool)
    requires
        key_ok(k, lead),
        lead ==> f,
        value_ok(v),
        spaces(ind),
        0 <= p,
        p + entry_text(k, v, ind).len() <= s.len(),
        s.len() <= usize::MAX,
        s.subrange(p, p + entry_text(k, v, ind).len()) == entry_text(k, v, ind),
    ensures
        lex(s, p, LexMode::Main, f) == prefix_with(entry_toks(k, v, ind, p),
            lex(s, p + entry_text(k, v, ind).len(), LexMode::Main, entry_flag(v))),
    decreases v, 1int,
{
    match v {
        Value::List(l) => lemma_lex_entry_list(s, k, l, ind, p, f, lead),
        Value::Section(m) => lemma_lex_entry_section(s, k, m, ind, p, f, lead),
        _ => lemma_lex_entry_scalar(s, k, v, ind, p, f, lead),
    }
}

/// A map's text is read back as its tokens.
proof fn lemma_lex_map(s: Seq<u8>, m: Seq<(Seq<u8>, Value)>, ind: Seq<u8>, p: int, f: bool)
    requires
        map_ok(m, f),
        spaces(ind),
        0 <= p,
        p + map_text(m, ind).len() <= s.len(),
        s.len() <= usize::MAX,
        s.subrange(p, p + map_text(m, ind).len()) == map_text(m, ind),
    ensures
        lex(s, p, LexMode::Main, f) == prefix_with(map_toks(m, ind, p),
            lex(s, p + map_text(m, ind).len(), LexMode::Main, map_flag(m, f))),
    decreases m, 2int,
{
    if m.len() == 0 {
        match lex(s, p, LexMode::Main, f) {
            Ok(ts) => assert(seq![] + ts =~= ts),
            Err(_) => {},
        }
    } else {
        let m1 = m.drop_last();
        let t1 = map_text(m1, ind);
        let e = m.last();
        let et = entry_text(e.0, e.1, ind);
        assert(map_text(m, ind) == t1 + et);
        lemma_split(s, p, t1, et);
        lemma_lex_map(s, m1, ind, p, f);
        lemma_lex_entry(s, e.0, e.1, ind, p + t1.len(), map_flag(m1, f), f && m.len() == 1);
        let r = lex(s, p + t1.len() + et.len(), LexMode::Main, entry_flag(e.1));
        lemma_prefix_assoc(map_toks(m1, ind, p), entry_toks(e.0, e.1, ind, p + t1.len()), r);
    }
}

/// The values that a run of list tokens stands for, commas left out.
pub open spec fn toks_values(s: Seq<u8>, x: Seq<Token>) -> Seq<Value>
    decreases x.len(),
{
    if x.len() == 0 {
        seq![]
    } else {
        match x[0] {
            Token::Number(n) => seq![Value::Num(n as int)] + toks_values(s, x.drop_first()),
            Token::String(a, b) => seq![Value::Str(s.subrange(a as int, b as int))] + toks_values(s, x.drop_first()),
            _ => toks_values(s, x.drop_first()),
        }
    }
}

pub open spec fn list_token(t: Token) -> bool {
    t matches Token::Number(_) || t matches Token::String(_, _) || t == Token::Comma
}

proof fn lemma_parse_list_toks(s: Seq<u8>, toks: Seq<Token>, t: int, x: Seq<Token>, acc: Seq<Value>)
    requires
        0 <= t,
        t + x.len() < toks.len(),
        toks.subrange(t, t + x.len()) == x,
        toks[t + x.len()] == Token::BracketClose,
        forall|i: int| 0 <= i < x.len() ==> list_token(#[trigger] x[i]),
    ensures
        parse_list(s, toks, t, acc) == Ok::<(Seq<Value>, int), ParseError>((acc + toks_values(s, x), t + x.len() + 1)),
    decreases x.len(),
{
    if x.len() == 0 {
        assert(acc + toks_values(s, x) =~= acc);
    } else {
        assert(toks[t] == x[0]) by {
            assert(toks.subrange(t, t + x.len())[0] == toks[t]);
        }
        let rest = x.drop_first();
        assert(toks.subrange(t + 1, t + 1 + rest.len()) =~= rest) by {
            assert(toks.subrange(t + 1, t + 1 + rest.len()) =~= toks.subrange(t, t + x.len()).subrange(1, x.len() as int));
        }
        assert forall|i: int| 0 <= i < rest.len() implies list_token(#[trigger] rest[i]) by {
            assert(rest[i] == x[i + 1]);
        }
        assert(list_token(x[0]));
        match x[0] {
            Token::Number(n) => {
                lemma_parse_list_toks(s, toks, t + 1, rest, acc.push(Value::Num(n as int)));
                assert(acc.push(Value::Num(n as int)) + toks_values(s, rest) =~= acc + toks_values(s, x));
            },
            Token::String(a, b) => {
                lemma_parse_list_toks(s, toks, t + 1, rest, acc.push(Value::Str(s.subrange(a as int, b as int))));
                assert(acc.push(Value::Str(s.subrange(a as int, b as int))) + toks_values(s, rest) =~= acc + toks_values(s, x));
            },
            _ => {
                lemma_parse_list_toks(s, toks, t + 1, rest, acc);
            },
        }
    }
}

proof fn lemma_toks_values_concat(s: Seq<u8>, a: Seq<Token>, b: Seq<Token>)
    ensures
        toks_values(s, a + b) == toks_values(s, a) + toks_values(s, b),
    decreases a.len(),
{
    if a.len() == 0 {
        assert(a + b =~= b);
        assert(toks_values(s, a) + toks_values(s, b) =~= toks_values(s, b));
    } else {
        assert((a + b).drop_first() =~= a.drop_first() + b);
        lemma_toks_values_concat(s, a.drop_first(), b);
        assert((a + b)[0] == a[0]);
        match a[0] {
            Token::Number(n) => assert(seq![Value::Num(n as int)] + (toks_values(s, a.drop_first()) + toks_values(s, b))
                =~= (seq![Value::Num(n as int)] + toks_values(s, a.drop_first())) + toks_values(s, b)),
            Token::String(x, y) => assert(seq![Value::Str(s.subrange(x as int, y as int))] + (toks_values(s, a.drop_first()) + toks_values(s, b))
                =~= (seq![Value::Str(s.subrange(x as int, y as int))] + toks_values(s, a.drop_first())) + toks_values(s, b)),
            _ => {},
        }
    }
}

/// The tokens of a list's text stand for the list, where the text is in place.
proof fn lemma_list_toks_values(s: Seq<u8>, l: Seq<Value>, p: int)
    requires
        list_ok(l),
        0 <= p,
        p + list_text(l).len() <= s.len(),
        s.len() <= usize::MAX,
        s.subrange(p, p + list_text(l).len()) == list_text(l),
    ensures
        toks_values(s, list_toks(l, p)) == l,
        forall|i: int| 0 <= i < list_toks(l, p).len() ==> list_token(#[trigger] list_toks(l, p)[i]),
    decreases l.len(),
{
    if l.len() == 0 {
        assert(toks_values(s, list_toks(l, p)) =~= l);
    } else {
        let (pre, x, last) = if l.len() == 1 {
            (seq![], p, l[0])
        } else {
            (l.drop_last(), p + list_text(l.drop_last()).len() + 2, l.last())
        };
        let st = scalar_text(last);
        assert(scalar_ok(last)) by {
            assert(last == l[l.len() - 1]);
        }
        if l.len() == 1 {
            assert(list_text(l) == st);
        } else {
            assert(list_text(l) == list_text(pre) + seq![CH_COMMA, CH_SPACE] + st);
            lemma_split(s, p, list_text(pre) + seq![CH_COMMA, CH_SPACE], st);
            lemma_split(s, p, list_text(pre), seq![CH_COMMA, CH_SPACE]);
            assert(list_ok(pre)) by {
                assert forall|i: int| 0 <= i < pre.len() implies scalar_ok(#[trigger] pre[i]) by {
                    assert(pre[i] == l[i]);
                }
            }
            lemma_list_toks_values(s, pre, p);
        }
        assert(s.subrange(x, x + st.len()) == st) by {
            if l.len() == 1 {
            } else {
                lemma_split(s, p, list_text(pre) + seq![CH_COMMA, CH_SPACE], st);
            }
        }
        let tok = scalar_tok(last, x);
        assert(toks_values(s, seq![tok]) == seq![last]) by {
            assert(seq![tok].drop_first() =~= Seq::<Token>::empty());
            assert(toks_values(s, Seq::<Token>::empty()) == Seq::<Value>::empty());
            match last {
                Value::Str(t) => {
                    assert(st == seq![CH_QUOTE] + t + seq![CH_QUOTE]);
                    lemma_sub(s, x, st, 1, 1 + t.len() as int);
                    assert(st.subrange(1, 1 + t.len() as int) =~= t);
                    assert(tok == Token::String((x + 1) as usize, (x + 1 + t.len()) as usize));
                    assert(((x + 1) as usize) as int == x + 1);
                    assert(((x + 1 + t.len()) as usize) as int == x + 1 + t.len());
                    assert(toks_values(s, seq![tok]) == seq![Value::Str(s.subrange(x + 1, x + 1 + t.len()))] + toks_values(s, Seq::<Token>::empty()));
                    assert(seq![Value::Str(t)] + Seq::<Value>::empty() =~= seq![Value::Str(t)]);
                },
                Value::Num(n) => {
                    assert(tok == Token::Number(n as i64));
                    assert((n as i64) as int == n);
                    assert(toks_values(s, seq![tok]) == seq![Value::Num(n)] + toks_values(s, Seq::<Token>::empty()));
                    assert(seq![Value::Num(n)] + Seq::<Value>::empty() =~= seq![Value::Num(n)]);
                },
                _ => {},
            }
        }
        if l.len() == 1 {
            assert(list_toks(l, p) == seq![tok]);
        } else {
            let a = list_toks(pre, p);
            assert(list_toks(l, p) == a + seq![Token::Comma, tok]);
            lemma_toks_values_concat(s, a, seq![Token::Comma, tok]);
            assert(seq![Token::Comma, tok].drop_first() =~= seq![tok]);
            assert(toks_values(s, seq![Token::Comma, tok]) == toks_values(s, seq![tok]));
            assert(l =~= pre + seq![last]);
            assert forall|i: int| 0 <= i < list_toks(l, p).len() implies list_token(#[trigger] list_toks(l, p)[i]) by {
                if i < a.len() {
                    assert(list_toks(l, p)[i] == a[i]);
                }
            }
        }
    }
}

/// The text and the tokens of the first `j` entries begin those of the map.
proof fn lemma_map_prefix(m: Seq<(Seq<u8>, Value)>, ind: Seq<u8>, p: int, j: int)
    requires
        0 <= j <= m.len(),
    ensures
        map_text(m.subrange(0, j), ind).len() <= map_text(m, ind).len(),
        map_text(m, ind).subrange(0, map_text(m.subrange(0, j), ind).len() as int) == map_text(m.subrange(0, j), ind),
        map_toks(m.subrange(0, j), ind, p).len() <= map_toks(m, ind, p).len(),
        map_toks(m, ind, p).subrange(0, map_toks(m.subrange(0, j), ind, p).len() as int) == map_toks(m.subrange(0, j), ind, p),
    decreases m.len() - j,
{
    if j == m.len() {
        assert(m.subrange(0, j) =~= m);
        assert(map_text(m, ind).subrange(0, map_text(m, ind).len() as int) =~= map_text(m, ind));
        assert(map_toks(m, ind, p).subrange(0, map_toks(m, ind, p).len() as int) =~= map_toks(m, ind, p));
    } else {
        let m1 = m.drop_last();
        assert(m1.subrange(0, j) =~= m.subrange(0, j));
        lemma_map_prefix(m1, ind, p, j);
        let a = map_text(m.subrange(0, j), ind);
        let b = map_text(m1, ind);
        let c = map_text(m, ind);
        assert(c == b + entry_text(m.last().0, m.last().1, ind));
        assert(c.subrange(0, a.len() as int) =~= b.subrange(0, a.len() as int));
        let ta = map_toks(m.subrange(0, j), ind, p);
        let tb = map_toks(m1, ind, p);
        let tc = map_toks(m, ind, p);
        assert(tc == tb + entry_toks(m.last().0, m.last().1, ind, p + b.len()));
        assert(tc.subrange(0, ta.len() as int) =~= tb.subrange(0, ta.len() as int));
    }
}

proof fn lemma_map_ok_prefix(m: Seq<(Seq<u8>, Value)>, j: int, f: bool)
    requires
        map_ok(m, f),
        0 <= j <= m.len(),
    ensures
        map_ok(m.subrange(0, j), f),
    decreases m.len() - j,
{
    if j < m.len() {
        lemma_map_ok_prefix(m.drop_last(), j, f);
        assert(m.drop_last().subrange(0, j) =~= m.subrange(0, j));
    } else {
        assert(m.subrange(0, j) =~= m);
    }
}

/// An entry's tokens are read as one assignment.
proof fn lemma_parse_entry(s: Seq<u8>, toks: Seq<Token>, t: int, k: Seq<u8>, v: Value, ind: Seq<u8>, p: int,
    acc: Seq<(Seq<u8>, Value)>)
    requires
        value_ok(v),
        spaces(ind),
        0 <= p,
        p + entry_text(k, v, ind).len() <= s.len(),
        s.len() <= usize::MAX,
        s.subrange(p, p + entry_text(k, v, ind).len()) == entry_text(k, v, ind),
        0 <= t,
        t + entry_toks(k, v, ind, p).len() < toks.len(),
        toks.subrange(t, t + entry_toks(k, v, ind, p).len()) == entry_toks(k, v, ind, p),
    ensures
        parse_map(s, toks, t, acc) == parse_map(s, toks, t + entry_toks(k, v, ind, p).len(), map_insert(acc, k, v)),
    decreases v, 1int, 0int,
{
    let et = entry_text(k, v, ind);
    let ets = entry_toks(k, v, ind, p);
    let kp = p + ind.len();
    let ke = kp + k.len();
    assert forall|i: int| 0 <= i < ets.len() implies toks[t + i] == #[trigger] ets[i] by {
        assert(toks.subrange(t, t + ets.len())[i] == toks[t + i]);
    }
    assert(et.subrange(ind.len() as int, (ind.len() + k.len()) as int) =~= k);
    lemma_sub(s, p, et, ind.len() as int, (ind.len() + k.len()) as int);
    assert(s.subrange(kp, ke) == k);
    assert((kp as usize) as int == kp && (ke as usize) as int == ke);
    let key = Token::Ident(kp as usize, ke as usize);
    match v {
        Value::List(l) => {
            let lt = list_text(l);
            let lts = list_toks(l, ke + 4);
            assert(et == ind + k + seq![CH_SPACE, CH_EQUALS, CH_SPACE, CH_BRACKET_OPEN] + lt + seq![CH_BRACKET_CLOSE, CH_NL]);
            lemma_sub(s, p, et, ke + 4 - p, ke + 4 + lt.len() - p);
            assert(et.subrange(ke + 4 - p, ke + 4 + lt.len() - p) =~= lt);
            lemma_list_toks_values(s, l, ke + 4);
            assert(ets == seq![key, Token::Equals, Token::BracketOpen] + lts + seq![Token::BracketClose]);
            assert(ets[0] == key && ets[1] == Token::Equals && ets[2] == Token::BracketOpen);
            assert(toks[t] == key && toks[t + 1] == Token::Equals && toks[t + 2] == Token::BracketOpen);
            assert(toks.subrange(t + 3, t + 3 + lts.len()) =~= lts) by {
                assert forall|i: int| 0 <= i < lts.len() implies #[trigger] toks.subrange(t + 3, t + 3 + lts.len())[i] == lts[i] by {
                    assert(ets[3 + i] == lts[i]);
                }
            }
            assert(toks[t + 3 + lts.len()] == Token::BracketClose) by {
                assert(ets[3 + lts.len() as int] == Token::BracketClose);
            }
            lemma_parse_list_toks(s, toks, t + 3, lts, seq![]);
            assert(seq![] + toks_values(s, lts) =~= l);
        },
        Value::Section(m2) => {
            let ind2 = ind + seq![CH_SPACE, CH_SPACE];
            let mt = map_text(m2, ind2);
            let mts = map_toks(m2, ind2, ke + 3);
            assert(et == ind + k + seq![CH_SPACE, CH_CURLY_OPEN, CH_NL] + mt + ind + seq![CH_CURLY_CLOSE, CH_NL]);
            lemma_sub(s, p, et, ke + 3 - p, ke + 3 + mt.len() - p);
            assert(et.subrange(ke + 3 - p, ke + 3 + mt.len() - p) =~= mt);
            assert(ets == seq![key, Token::CurlyOpen] + mts + seq![Token::CurlyClose]);
            assert(ets[0] == key && ets[1] == Token::CurlyOpen);
            assert(toks[t] == key && toks[t + 1] == Token::CurlyOpen);
            assert(toks.subrange(t + 2, t + 2 + mts.len()) =~= mts) by {
                assert forall|i: int| 0 <= i < mts.len() implies #[trigger] toks.subrange(t + 2, t + 2 + mts.len())[i] == mts[i] by {
                    assert(ets[2 + i] == mts[i]);
                }
            }
            assert(toks[t + 2 + mts.len()] == Token::CurlyClose) by {
                assert(ets[2 + mts.len() as int] == Token::CurlyClose);
            }
            assert(spaces(ind2));
            lemma_parse_map_all(s, toks, t + 2, m2, ind2, ke + 3, true);
        },
        _ => {
            let st = scalar_text(v);
            assert(et == ind + k + seq![CH_SPACE, CH_EQUALS, CH_SPACE] + st + seq![CH_NL]);
            lemma_sub(s, p, et, ke + 3 - p, ke + 3 + st.len() - p);
            assert(et.subrange(ke + 3 - p, ke + 3 + st.len() - p) =~= st);
            assert(ets == seq![key, Token::Equals, scalar_tok(v, ke + 3)]);
            assert(ets[0] == key && ets[1] == Token::Equals && ets[2] == scalar_tok(v, ke + 3));
            assert(toks[t] == key && toks[t + 1] == Token::Equals && toks[t + 2] == scalar_tok(v, ke + 3));
            match v {
                Value::Str(tx) => {
                    assert(st == seq![CH_QUOTE] + tx + seq![CH_QUOTE]);
                    lemma_sub(s, ke + 3, st, 1, 1 + tx.len() as int);
                    assert(st.subrange(1, 1 + tx.len() as int) =~= tx);
                    assert(((ke + 4) as usize) as int == ke + 4);
                    assert(((ke + 4 + tx.len()) as usize) as int == ke + 4 + tx.len());
                },
                Value::Num(n) => {
                    assert((n as i64) as int == n);
                },
                _ => {},
            }
        },
    }
}

/// The tokens of the entries from the `j`th on, then `}`, finish the map.
proof fn lemma_parse_map_from(s: Seq<u8>, toks: Seq<Token>, t: int, m: Seq<(Seq<u8>, Value)>, ind: Seq<u8>, p: int, j: int, f: bool)
    requires
        map_ok(m, f),
        spaces(ind),
        0 <= p,
        p + map_text(m, ind).len() <= s.len(),
        s.len() <= usize::MAX,
        s.subrange(p, p + map_text(m, ind).len()) == map_text(m, ind),
        0 <= t,
        t + map_toks(m, ind, p).len() < toks.len(),
        toks.subrange(t, t + map_toks(m, ind, p).len()) == map_toks(m, ind, p),
        toks[t + map_toks(m, ind, p).len()] == Token::CurlyClose,
        0 <= j <= m.len(),
    ensures
        parse_map(s, toks, t + map_toks(m.subrange(0, j), ind, p).len(), m.subrange(0, j))
            == Ok::<(Seq<(Seq<u8>, Value)>, int), ParseError>((m, t + map_toks(m, ind, p).len() + 1)),
    decreases m, 2int, m.len() - j,
{
    if j == m.len() {
        assert(m.subrange(0, j) =~= m);
    } else {
        let mj = m.subrange(0, j);
        let mj1 = m.subrange(0, j + 1);
        assert(mj1.drop_last() =~= mj);
        assert(mj1.last() == m[j]);
        lemma_map_prefix(m, ind, p, j + 1);
        lemma_map_ok_prefix(m, j + 1, f);
        let (k, v) = m[j];
        let pj = p + map_text(mj, ind).len();
        let et = entry_text(k, v, ind);
        let ets = entry_toks(k, v, ind, pj);
        let tj = t + map_toks(mj, ind, p).len();
        assert(map_text(mj1, ind) == map_text(mj, ind) + et);
        assert(map_toks(mj1, ind, p) == map_toks(mj, ind, p) + ets);
        assert(s.subrange(pj, pj + et.len()) == et) by {
            lemma_sub(s, p, map_text(m, ind), map_text(mj, ind).len() as int, map_text(mj1, ind).len() as int);
            assert(map_text(m, ind).subrange(map_text(mj, ind).len() as int, map_text(mj1, ind).len() as int)
                =~= map_text(mj1, ind).subrange(map_text(mj, ind).len() as int, map_text(mj1, ind).len() as int));
            assert(map_text(mj1, ind).subrange(map_text(mj, ind).len() as int, map_text(mj1, ind).len() as int) =~= et);
        }
        assert(toks.subrange(tj, tj + ets.len()) == ets) by {
            let mt = map_toks(m, ind, p);
            assert(toks.subrange(tj, tj + ets.len()) =~= mt.subrange(tj - t, tj - t + ets.len())) by {
                assert forall|i: int| 0 <= i < ets.len() implies #[trigger] toks.subrange(tj, tj + ets.len())[i] == mt.subrange(tj - t, tj - t + ets.len())[i] by {
                    assert(toks.subrange(t, t + mt.len())[tj - t + i] == toks[tj + i]);
                }
            }
            assert(mt.subrange(tj - t, tj - t + ets.len()) =~= map_toks(mj1, ind, p).subrange(tj - t, tj - t + ets.len()));
            assert(map_toks(mj1, ind, p).subrange(tj - t, tj - t + ets.len()) =~= ets);
        }
        assert(value_ok(v) && key_pos(mj, k) == -1);
        lemma_parse_entry(s, toks, tj, k, v, ind, pj, mj);
        assert(map_insert(mj, k, v) =~= mj1);
        lemma_parse_map_from(s, toks, t, m, ind, p, j + 1, f);
    }
}

/// A map's tokens, then `}`, are read as the map.
proof fn lemma_parse_map_all(s: Seq<u8>, toks: Seq<Token>, t: int, m: Seq<(Seq<u8>, Value)>, ind: Seq<u8>, p: int, f: bool)
    requires
        map_ok(m, f),
        spaces(ind),
        0 <= p,
        p + map_text(m, ind).len() <= s.len(),
        s.len() <= usize::MAX,
        s.subrange(p, p + map_text(m, ind).len()) == map_text(m, ind),
        0 <= t,
        t + map_toks(m, ind, p).len() < toks.len(),
        toks.subrange(t, t + map_toks(m, ind, p).len()) == map_toks(m, ind, p),
        toks[t + map_toks(m, ind, p).len()] == Token::CurlyClose,
    ensures
        parse_map(s, toks, t, seq![]) == Ok::<(Seq<(Seq<u8>, Value)>, int), ParseError>((m, t + map_toks(m, ind, p).len() + 1)),
    decreases m, 3int, 0int,
{
    lemma_parse_map_from(s, toks, t, m, ind, p, 0, f);
    assert(m.subrange(0, 0) =~= Seq::<(Seq<u8>, Value)>::empty());
}

/// Writing a printable map and reading the text back gives the same map.
pub proof fn lemma_text_round_trip(m: Seq<(Seq<u8>, Value)>)
    requires
        printable(m),
        map_text(m, seq![]).len() < usize::MAX,
    ensures
        parse_text(map_text(m, seq![])) == Ok::<Seq<(Seq<u8>, Value)>, ParseError>(m),
{
    let s = map_text(m, seq![]);
    let ind = Seq::<u8>::empty();
    assert(spaces(ind));
    assert(s.subrange(0, s.len() as int) =~= s);
    lemma_lex_map(s, m, ind, 0, false);
    let mt = map_toks(m, ind, 0);
    let g = map_flag(m, false);
    assert(lex(s, s.len() as int, LexMode::Main, g) == Ok::<Seq<Token>, ParseError>(seq![]));
    assert(mt + seq![] =~= mt);
    let all = mt.push(Token::CurlyClose);
    assert(all.subrange(0, mt.len() as int) =~= mt);
    assert(all[mt.len() as int] == Token::CurlyClose);
    lemma_parse_map_all(s, all, 0, m, ind, 0, false);
}

/// The same holds of the text with the NUL that ends a stored metadata text.
pub proof fn lemma_text_round_trip_terminated(m: Seq<(Seq<u8>, Value)>)
    requires
        printable(m),
        map_text(m, seq![]).len() + 1 < usize::MAX,
    ensures
        parse_text(map_text(m, seq![]) + seq![0u8]) == Ok::<Seq<(Seq<u8>, Value)>, ParseError>(m),
{
    let t = map_text(m, seq![]);
    let s = t + seq![0u8];
    let ind = Seq::<u8>::empty();
    assert(spaces(ind));
    assert(s.subrange(0, t.len() as int) =~= t);
    lemma_lex_map(s, m, ind, 0, false);
    let mt = map_toks(m, ind, 0);
    let g = map_flag(m, false);
    assert(s[t.len() as int] == 0u8);
    assert(lex(s, t.len() as int, LexMode::Main, g) == main_step(s, t.len() as int, g));
    assert(lex(s, s.len() as int, LexMode::Main, g) == Ok::<Seq<Token>, ParseError>(seq![]));
    assert(mt + seq![] =~= mt);
    let all = mt.push(Token::CurlyClose);
    assert(all.subrange(0, mt.len() as int) =~= mt);
    assert(all[mt.len() as int] == Token::CurlyClose);
    lemma_parse_map_all(s, all, 0, m, ind, 0, false);
}

/// Writing what was read, reading it and writing it again gives the
/// same text as the first writing, for text that reads as a printable map.
pub proof fn lemma_text_idempotent(x: Seq<u8>, m: Seq<(Seq<u8>, Value)>)
    requires
        parse_text(x) == Ok::<Seq<(Seq<u8>, Value)>, ParseError>(m),
        printable(m),
        map_text(m, seq![]).len() < usize::MAX,
    ensures
        parse_text(map_text(m, seq![])) matches Ok(m2) && map_text(m2, seq![]) == map_text(m, seq![]),
{
    lemma_text_round_trip(m);
}

/// A metadata area that holds the text of a commit reads back as the
/// committed map, whose entry under the VG's name is the VG's own map (with
/// its new sequence number), where the VG's names and strings are printable.
pub proof fn lemma_commit_read_back(img: Seq<u8>, area: PvArea, name: Seq<u8>, fields: Seq<(Seq<u8>, Value)>, host: Seq<u8>,
    time: i64)
    requires
        mda_text(img, area) == Some(map_text(disk_fields(name, fields, host, time), seq![]) + seq![0u8]),
        printable(disk_fields(name, fields, host, time)),
        map_text(disk_fields(name, fields, host, time), seq![]).len() + 1 < usize::MAX,
    ensures
        parse_text(mda_text(img, area)->Some_0) == Ok::<Seq<(Seq<u8>, Value)>, ParseError>(disk_fields(name, fields, host, time)),
        lookup(disk_fields(name, fields, host, time), name) == Some(Value::Section(fields)),
{
    let d = disk_fields(name, fields, host, time);
    lemma_text_round_trip_terminated(d);
    assert(d.drop_last().len() == 5);
    assert(key_pos(d.drop_last(), name) == -1);
    lemma_key_pos(d.drop_last(), name);
    assert forall|j: int| 0 <= j < d.len() && j < 5 implies #[trigger] d[j].0 != name by {
        assert(d[j] == d.drop_last()[j]);
    }
    lemma_key_pos_is(d, name, 5);
}

} // verus!

//! The LVM text configuration format: its tree, its grammar and its writer.
//!
//! The same format holds on-disk VG metadata and the system configuration.
//! Its meaning is given by spec functions over `Value`, the mathematical form
//! of a `LvmTextMap`: `parse_text` for reading and `map_text` for writing.

use vstd::prelude::*;
use vstd::string::StringSliceAdditionalSpecFns;
use crate::lexer::{CH_BRACKET_CLOSE, CH_BRACKET_OPEN, CH_COMMA, CH_CURLY_CLOSE, CH_CURLY_OPEN, CH_EQUALS, CH_MINUS, CH_NL, CH_QUOTE, CH_SPACE, CH_ZERO, lex_all, tokens_in, Lexer, ParseError, ParseErrorKind, Token};
use crate::util::{push_all, push_range};
use crate::error::Error;


verus! {

/// An item of a list: lists hold only numbers and strings.
#[derive(Debug)]
pub enum Element {
    Number(i64),
    String(Vec<u8>),
}

/// A value of the text format.
#[derive(Debug)]
pub enum Entry {
    Number(i64),
    String(Vec<u8>),
    List(Vec<Element>),
    TextMap(Box<LvmTextMap>),
}

/// An ordered map from keys to entries. Keys are unique; a key inserted
/// again keeps its place and takes the new value.
#[derive(Debug)]
pub struct LvmTextMap {
    pub entries: Vec<(Vec<u8>, Entry)>,
}

/// The mathematical form of an entry.
pub enum Value {
    Num(int),
    Str(Seq<u8>),
    List(Seq<Value>),
    Section(Seq<(Seq<u8>, Value)>),
}

pub open spec fn element_view(e: Element) -> Value {
    match e {
        Element::Number(n) => Value::Num(n as int),
        Element::String(s) => Value::Str(s@),
    }
}

pub open spec fn elements_view(s: Seq<Element>) -> Seq<Value> {
    s.map_values(|e: Element| element_view(e))
}

pub open spec fn entry_view(e: Entry) -> Value
    decreases e,
{
    match e {
        Entry::Number(n) => Value::Num(n as int),
        Entry::String(s) => Value::Str(s@),
        Entry::List(v) => Value::List(elements_view(v@)),
        Entry::TextMap(m) => Value::Section(entries_view(m.entries@)),
    }
}

pub open spec fn entries_view(s: Seq<(Vec<u8>, Entry)>) -> Seq<(Seq<u8>, Value)>
    decreases s,
{
    if s.len() == 0 {
        seq![]
    } else {
        entries_view(s.drop_last()).push((s.last().0@, entry_view(s.last().1)))
    }
}

impl View for LvmTextMap {
    type V = Seq<(Seq<u8>, Value)>;

    open spec fn view(&self) -> Seq<(Seq<u8>, Value)> {
        entries_view(self.entries@)
    }
}

pub proof fn lemma_entries_view_index(s: Seq<(Vec<u8>, Entry)>)
    ensures
        entries_view(s).len() == s.len(),
        forall|i: int| 0 <= i < s.len() ==> #[trigger] entries_view(s)[i] == (s[i].0@, entry_view(s[i].1)),
    decreases s.len(),
{
    if s.len() > 0 {
        lemma_entries_view_index(s.drop_last());
    }
}

pub proof fn lemma_entries_view_update(s: Seq<(Vec<u8>, Entry)>, i: int, x: (Vec<u8>, Entry))
    requires
        0 <= i < s.len(),
    ensures
        entries_view(s.update(i, x)) == entries_view(s).update(i, (x.0@, entry_view(x.1))),
{
    lemma_entries_view_index(s);
    lemma_entries_view_index(s.update(i, x));
    assert(entries_view(s.update(i, x)) =~= entries_view(s).update(i, (x.0@, entry_view(x.1))));
}

pub proof fn lemma_entries_view_push(s: Seq<(Vec<u8>, Entry)>, x: (Vec<u8>, Entry))
    ensures
        entries_view(s.push(x)) == entries_view(s).push((x.0@, entry_view(x.1))),
{
    assert(s.push(x).drop_last() == s);
}

/// The first position of key `k` in `m`, or -1.
pub open spec fn key_pos(m: Seq<(Seq<u8>, Value)>, k: Seq<u8>) -> int
    decreases m.len(),
{
    if m.len() == 0 {
        -1
    } else if key_pos(m.drop_last(), k) >= 0 {
        key_pos(m.drop_last(), k)
    } else if m.last().0 == k {
        m.len() - 1
    } else {
        -1
    }
}

pub proof fn lemma_key_pos(m: Seq<(Seq<u8>, Value)>, k: Seq<u8>)
    ensures
        -1 <= key_pos(m, k) < m.len(),
        key_pos(m, k) >= 0 ==> m[key_pos(m, k)].0 == k,
        forall|j: int| 0 <= j < m.len() && (key_pos(m, k) < 0 || j < key_pos(m, k)) ==> #[trigger] m[j].0 != k,
    decreases m.len(),
{
    if m.len() > 0 {
        lemma_key_pos(m.drop_last(), k);
        assert forall|j: int| 0 <= j < m.len() - 1 implies m.drop_last()[j] == m[j] by {}
    }
}

pub proof fn lemma_key_pos_is(m: Seq<(Seq<u8>, Value)>, k: Seq<u8>, i: int)
    requires
        -1 <= i < m.len(),
        i >= 0 ==> m[i].0 == k,
        forall|j: int| 0 <= j < m.len() && (i < 0 || j < i) ==> #[trigger] m[j].0 != k,
    ensures
        key_pos(m, k) == i,
{
    lemma_key_pos(m, k);
}

/// The value under key `k`, if any.
pub open spec fn lookup(m: Seq<(Seq<u8>, Value)>, k: Seq<u8>) -> Option<Value> {
    if key_pos(m, k) >= 0 {
        Some(m[key_pos(m, k)].1)
    } else {
        None
    }
}

/// `m` with `k` bound to `v`: in place where `k` is bound, else at the end.
pub open spec fn map_insert(m: Seq<(Seq<u8>, Value)>, k: Seq<u8>, v: Value) -> Seq<(Seq<u8>, Value)> {
    if key_pos(m, k) >= 0 {
        m.update(key_pos(m, k), (k, v))
    } else {
        m.push((k, v))
    }
}

/// Whether two byte strings are equal.
pub fn bytes_eq(a: &[u8], b: &[u8]) -> (r: bool)
    ensures
        r == (a@ == b@),
{
    if a.len() != b.len() {
        return false;
    }
    let mut i: usize = 0;
    while i < a.len()
        invariant
            a@.len() == b@.len(),
            i <= a@.len(),
            forall|j: int| 0 <= j < i ==> a@[j] == b@[j],
        decreases a@.len() - i,
    {
        if a[i] != b[i] {
            return false;
        }
        i = i + 1;
    }
    assert(a@ =~= b@);
    true
}

impl LvmTextMap {
    /// An empty map.
    pub fn new() -> (r: LvmTextMap)
        ensures
            r@ == Seq::<(Seq<u8>, Value)>::empty(),
    {
        LvmTextMap { entries: Vec::new() }
    }

    /// The number of keys.
    pub fn len(&self) -> (r: usize)
        ensures
            r == self@.len(),
    {
        proof {
            lemma_entries_view_index(self.entries@);
        }
        self.entries.len()
    }

    /// The position of `key`, if it is bound.
    pub fn position(&self, key: &[u8]) -> (r: Option<usize>)
        ensures
            match r {
                Some(i) => key_pos(self@, key@) == i as int,
                None => key_pos(self@, key@) == -1,
            },
    {
        proof {
            lemma_entries_view_index(self.entries@);
        }
        let mut i: usize = 0;
        while i < self.entries.len()
            invariant
                i <= self.entries@.len(),
                self@.len() == self.entries@.len(),
                forall|j: int| 0 <= j < i ==> #[trigger] self@[j].0 != key@,
            decreases self.entries@.len() - i,
        {
            proof {
                lemma_entries_view_index(self.entries@);
            }
            if bytes_eq(self.entries[i].0.as_slice(), key) {
                proof {
                    lemma_key_pos_is(self@, key@, i as int);
                }
                return Some(i);
            }
            i = i + 1;
        }
        proof {
            lemma_key_pos_is(self@, key@, -1);
        }
        None
    }

    /// Bind `key` to `value`.
    pub fn insert(&mut self, key: Vec<u8>, value: Entry)
        ensures
            final(self)@ == map_insert(old(self)@, key@, entry_view(value)),
    {
        proof {
            lemma_entries_view_index(self.entries@);
            lemma_key_pos(self@, key@);
        }
        match self.position(key.as_slice()) {
            Some(i) => {
                proof {
                    lemma_entries_view_update(self.entries@, i as int, (key, value));
                    lemma_entries_view_index(self.entries@);
                }
                self.entries.set(i, (key, value));
            },
            None => {
                proof {
                    lemma_entries_view_push(self.entries@, (key, value));
                }
                self.entries.push((key, value));
            },
        }
    }

    /// Append `key` bound to `value`, where the caller knows the key is new.
    pub fn push(&mut self, key: Vec<u8>, value: Entry)
        ensures
            final(self)@ == old(self)@.push((key@, entry_view(value))),
    {
        proof {
            lemma_entries_view_push(self.entries@, (key, value));
        }
        self.entries.push((key, value));
    }

    /// The entry under `key`, if any.
    pub fn get(&self, key: &[u8]) -> (r: Option<&Entry>)
        ensures
            match r {
                Some(e) => lookup(self@, key@) == Some(entry_view(*e)),
                None => lookup(self@, key@) is None,
            },
    {
        proof {
            lemma_entries_view_index(self.entries@);
            lemma_key_pos(self@, key@);
        }
        match self.position(key) {
            Some(i) => Some(&self.entries[i].1),
            None => None,
        }
    }
}

pub open spec fn err_at<T>(kind: ParseErrorKind, p: int) -> Result<T, ParseError> {
    Err(ParseError { kind, position: p as usize })
}

/// The items of a list from token `p` up to its `]`, after those in `acc`;
/// with the position after the `]`.
pub open spec fn parse_list(s: Seq<u8>, toks: Seq<Token>, p: int, acc: Seq<Value>) -> Result<(Seq<Value>, int), ParseError>
    decreases toks.len() - p,
{
    if p < 0 || p >= toks.len() {
        err_at(ParseErrorKind::Unterminated, toks.len() as int)
    } else {
        match toks[p] {
            Token::BracketClose => Ok((acc, p + 1)),
            Token::Number(n) => parse_list(s, toks, p + 1, acc.push(Value::Num(n as int))),
            Token::String(a, b) => parse_list(s, toks, p + 1, acc.push(Value::Str(s.subrange(a as int, b as int)))),
            Token::Comma => parse_list(s, toks, p + 1, acc),
            _ => err_at(ParseErrorKind::Unexpected, p),
        }
    }
}

/// The assignments of a section from token `p` up to its `}`, added to
/// `acc`; with the position after the `}`.
pub open spec fn parse_map(s: Seq<u8>, toks: Seq<Token>, p: int, acc: Seq<(Seq<u8>, Value)>) -> Result<(Seq<(Seq<u8>, Value)>, int), ParseError>
    decreases toks.len() - p,
{
    if p < 0 || p >= toks.len() {
        err_at(ParseErrorKind::BadBrace, toks.len() as int)
    } else {
        match toks[p] {
            Token::CurlyClose => Ok((acc, p + 1)),
            Token::Ident(a, b) => {
                let key = s.subrange(a as int, b as int);
                if p + 1 >= toks.len() {
                    err_at(ParseErrorKind::Unterminated, p + 1)
                } else {
                    match toks[p + 1] {
                        Token::Equals => if p + 2 >= toks.len() {
                            err_at(ParseErrorKind::Unterminated, p + 2)
                        } else {
                            match toks[p + 2] {
                                Token::Number(n) => parse_map(s, toks, p + 3, map_insert(acc, key, Value::Num(n as int))),
                                Token::String(c, d) => parse_map(
                                    s,
                                    toks,
                                    p + 3,
                                    map_insert(acc, key, Value::Str(s.subrange(c as int, d as int))),
                                ),
                                Token::BracketOpen => match parse_list(s, toks, p + 3, seq![]) {
                                    Ok((l, q)) => if q <= p || q > toks.len() {
                                        err_at(ParseErrorKind::Unexpected, p)
                                    } else {
                                        parse_map(s, toks, q, map_insert(acc, key, Value::List(l)))
                                    },
                                    Err(e) => Err(e),
                                },
                                _ => err_at(ParseErrorKind::Unexpected, p + 2),
                            }
                        },
                        Token::CurlyOpen => match parse_map(s, toks, p + 2, seq![]) {
                            Ok((m, q)) => if q <= p || q > toks.len() {
                                err_at(ParseErrorKind::BadBrace, p)
                            } else {
                                parse_map(s, toks, q, map_insert(acc, key, Value::Section(m)))
                            },
                            Err(e) => Err(e),
                        },
                        _ => err_at(ParseErrorKind::Unexpected, p + 1),
                    }
                }
            },
            _ => err_at(ParseErrorKind::Unexpected, p),
        }
    }
}

/// What a text denotes: the top level is a section without braces.
pub open spec fn parse_text(s: Seq<u8>) -> Result<Seq<(Seq<u8>, Value)>, ParseError> {
    match lex_all(s) {
        Err(e) => Err(e),
        Ok(ts) => {
            let all = ts.push(Token::CurlyClose);
            match parse_map(s, all, 0, seq![]) {
                Err(e) => Err(e),
                Ok((m, q)) => if q == all.len() {
                    Ok(m)
                } else {
                    err_at(ParseErrorKind::BadBrace, q)
                },
            }
        }
    }
}

fn copy_range(s: &[u8], a: usize, b: usize) -> (r: Vec<u8>)
    requires
        a <= b <= s@.len(),
    ensures
        r@ == s@.subrange(a as int, b as int),
{
    let mut v: Vec<u8> = Vec::new();
    push_range(&mut v, s, a, b);
    v
}

fn parse_list_exec(s: &[u8], toks: &Vec<Token>, p0: usize) -> (r: Result<(Vec<Element>, usize), ParseError>)
    requires
        tokens_in(s@, toks@),
    ensures
        match parse_list(s@, toks@, p0 as int, seq![]) {
            Ok((l, q)) => r matches Ok((v, q2)) && elements_view(v@) == l && q2 == q,
            Err(e) => r == Err::<(Vec<Element>, usize), ParseError>(e),
        },
{
    let mut acc: Vec<Element> = Vec::new();
    let mut p = p0;
    assert(elements_view(acc@) =~= seq![]);
    loop
        invariant
            tokens_in(s@, toks@),
            parse_list(s@, toks@, p as int, elements_view(acc@)) == parse_list(s@, toks@, p0 as int, seq![]),
        decreases toks@.len() - p,
    {
        if p >= toks.len() {
            return Err(ParseError { kind: ParseErrorKind::Unterminated, position: toks.len() });
        }
        match toks[p] {
            Token::BracketClose => {
                return Ok((acc, p + 1));
            },
            Token::Number(n) => {
                let ghost old_acc = acc@;
                acc.push(Element::Number(n));
                assert(elements_view(acc@) =~= elements_view(old_acc).push(Value::Num(n as int)));
            },
            Token::String(a, b) => {
                let ghost old_acc = acc@;
                assert(tokens_in(s@, toks@) ==> a <= b <= s@.len()) by {
                    assert(toks@[p as int] == Token::String(a, b));
                }
                let bytes = copy_range(s, a, b);
                acc.push(Element::String(bytes));
                assert(elements_view(acc@) =~= elements_view(old_acc).push(Value::Str(s@.subrange(a as int, b as int))));
            },
            Token::Comma => {},
            _ => {
                return Err(ParseError { kind: ParseErrorKind::Unexpected, position: p });
            },
        }
        p = p + 1;
    }
}

fn parse_map_exec(s: &[u8], toks: &Vec<Token>, p0: usize) -> (r: Result<(LvmTextMap, usize), ParseError>)
    requires
        tokens_in(s@, toks@),
    ensures
        match parse_map(s@, toks@, p0 as int, seq![]) {
            Ok((m, q)) => r matches Ok((v, q2)) && v@ == m && q2 == q,
            Err(e) => r == Err::<(LvmTextMap, usize), ParseError>(e),
        },
    decreases toks@.len() - p0,
{
    let mut acc = LvmTextMap::new();
    let mut p = p0;
    loop
        invariant
            tokens_in(s@, toks@),
            p0 <= p,
            parse_map(s@, toks@, p as int, acc@) == parse_map(s@, toks@, p0 as int, seq![]),
        decreases toks@.len() - p,
    {
        if p >= toks.len() {
            return Err(ParseError { kind: ParseErrorKind::BadBrace, position: toks.len() });
        }
        match toks[p] {
            Token::CurlyClose => {
                return Ok((acc, p + 1));
            },
            Token::Ident(a, b) => {
                assert(a <= b <= s@.len()) by {
                    assert(toks@[p as int] == Token::Ident(a, b));
                }
                let key = copy_range(s, a, b);
                if p + 1 >= toks.len() {
                    return Err(ParseError { kind: ParseErrorKind::Unterminated, position: p + 1 });
                }
                match toks[p + 1] {
                    Token::Equals => {
                        if p + 2 >= toks.len() {
                            return Err(ParseError { kind: ParseErrorKind::Unterminated, position: p + 2 });
                        }
                        match toks[p + 2] {
                            Token::Number(n) => {
                                acc.insert(key, Entry::Number(n));
                                p = p + 3;
                            },
                            Token::String(c, d) => {
                                assert(c <= d <= s@.len()) by {
                                    assert(toks@[p + 2] == Token::String(c, d));
                                }
                                let val = copy_range(s, c, d);
                                acc.insert(key, Entry::String(val));
                                p = p + 3;
                            },
                            Token::BracketOpen => {
                                match parse_list_exec(s, toks, p + 3) {
                                    Ok((l, q)) => {
                                        if q <= p || q > toks.len() {
                                            return Err(ParseError { kind: ParseErrorKind::Unexpected, position: p });
                                        }
                                        acc.insert(key, Entry::List(l));
                                        p = q;
                                    },
                                    Err(e) => {
                                        return Err(e);
                                    },
                                }
                            },
                            _ => {
                                return Err(ParseError { kind: ParseErrorKind::Unexpected, position: p + 2 });
                            },
                        }
                    },
                    Token::CurlyOpen => {
                        match parse_map_exec(s, toks, p + 2) {
                            Ok((m, q)) => {
                                if q <= p || q > toks.len() {
                                    return Err(ParseError { kind: ParseErrorKind::BadBrace, position: p });
                                }
                                acc.insert(key, Entry::TextMap(Box::new(m)));
                                p = q;
                            },
                            Err(e) => {
                                return Err(e);
                            },
                        }
                    },
                    _ => {
                        return Err(ParseError { kind: ParseErrorKind::Unexpected, position: p + 1 });
                    },
                }
            },
            _ => {
                return Err(ParseError { kind: ParseErrorKind::Unexpected, position: p });
            },
        }
    }
}

/// Read a text in the LVM configuration format.
pub fn buf_to_textmap(buf: &[u8]) -> (r: Result<LvmTextMap, ParseError>)
    ensures
        match parse_text(buf@) {
            Ok(m) => r matches Ok(v) && v@ == m,
            Err(e) => r == Err::<LvmTextMap, ParseError>(e),
        },
{
    let mut lexer = Lexer::new(buf);
    let mut toks = match lexer.tokenize() {
        Ok(t) => t,
        Err(e) => {
            return Err(e);
        },
    };
    let ghost lexed = toks@;
    toks.push(Token::CurlyClose);
    assert(tokens_in(buf@, toks@)) by {
        assert forall|i: int| 0 <= i < toks@.len() implies match #[trigger] toks@[i] {
            Token::String(a, b) => a <= b <= buf@.len(),
            Token::Ident(a, b) => a <= b <= buf@.len(),
            _ => true,
        } by {
            if i < toks@.len() - 1 {
                assert(toks@[i] == lexed[i]);
            }
        }
    }
    let n = toks.len();
    match parse_map_exec(buf, &toks, 0) {
        Ok((m, q)) => {
            if q == n {
                Ok(m)
            } else {
                Err(ParseError { kind: ParseErrorKind::BadBrace, position: q })
            }
        },
        Err(e) => Err(e),
    }
}

/// The decimal digits of `n`.
pub open spec fn nat_digits(n: nat) -> Seq<u8>
    decreases n,
{
    if n < 10 {
        seq![(CH_ZERO + n) as u8]
    } else {
        nat_digits(n / 10) + seq![(CH_ZERO + n % 10) as u8]
    }
}

/// The decimal text of an integer.
pub open spec fn int_text(n: int) -> Seq<u8> {
    if n < 0 {
        seq![CH_MINUS] + nat_digits((-n) as nat)
    } else {
        nat_digits(n as nat)
    }
}

/// How a number or a string is written.
pub open spec fn scalar_text(v: Value) -> Seq<u8> {
    match v {
        Value::Num(n) => int_text(n),
        Value::Str(t) => seq![CH_QUOTE] + t + seq![CH_QUOTE],
        _ => seq![],
    }
}

/// The items of a list, separated by `, `.
pub open spec fn list_text(l: Seq<Value>) -> Seq<u8>
    decreases l.len(),
{
    if l.len() == 0 {
        seq![]
    } else if l.len() == 1 {
        scalar_text(l[0])
    } else {
        list_text(l.drop_last()) + seq![CH_COMMA, CH_SPACE] + scalar_text(l.last())
    }
}

/// One assignment or section, indented by `ind`.
pub open spec fn entry_text(k: Seq<u8>, v: Value, ind: Seq<u8>) -> Seq<u8>
    decreases v,
{
    match v {
        Value::List(l) => ind + k + seq![CH_SPACE, CH_EQUALS, CH_SPACE, CH_BRACKET_OPEN] + list_text(l)
            + seq![CH_BRACKET_CLOSE, CH_NL],
        Value::Section(m) => ind + k + seq![CH_SPACE, CH_CURLY_OPEN, CH_NL] + map_text(m, ind + seq![CH_SPACE, CH_SPACE])
            + ind + seq![CH_CURLY_CLOSE, CH_NL],
        _ => ind + k + seq![CH_SPACE, CH_EQUALS, CH_SPACE] + scalar_text(v) + seq![CH_NL],
    }
}

/// The text of a map whose lines are indented by `ind`.
pub open spec fn map_text(m: Seq<(Seq<u8>, Value)>, ind: Seq<u8>) -> Seq<u8>
    decreases m,
{
    if m.len() == 0 {
        seq![]
    } else {
        map_text(m.drop_last(), ind) + entry_text(m.last().0, m.last().1, ind)
    }
}

pub fn push_digits(out: &mut Vec<u8>, n: u64)
    ensures
        final(out)@ == old(out)@ + nat_digits(n as nat),
    decreases n,
{
    if n < 10 {
        out.push(CH_ZERO + n as u8);
    } else {
        push_digits(out, n / 10);
        out.push(CH_ZERO + (n % 10) as u8);
        proof {
            assert(old(out)@ + nat_digits((n / 10) as nat) + seq![(CH_ZERO + n % 10) as u8]
                =~= old(out)@ + nat_digits(n as nat));
        }
    }
}

pub fn push_int(out: &mut Vec<u8>, n: i64)
    ensures
        final(out)@ == old(out)@ + int_text(n as int),
{
    if n < 0 {
        out.push(CH_MINUS);
        let mag: u64 = if n == i64::MIN { 0x8000_0000_0000_0000 } else { (-n) as u64 };
        push_digits(out, mag);
        proof {
            assert(old(out)@.push(CH_MINUS) + nat_digits(mag as nat) =~= old(out)@ + (seq![CH_MINUS] + nat_digits(mag as nat)));
        }
    } else {
        push_digits(out, n as u64);
    }
}

fn push_bytes(out: &mut Vec<u8>, b: &[u8])
    ensures
        final(out)@ == old(out)@ + b@,
{
    crate::util::push_all(out, b);
}

fn push_element(out: &mut Vec<u8>, e: &Element)
    ensures
        final(out)@ == old(out)@ + scalar_text(element_view(*e)),
{
    match e {
        Element::Number(n) => push_int(out, *n),
        Element::String(t) => {
            out.push(CH_QUOTE);
            push_bytes(out, t.as_slice());
            out.push(CH_QUOTE);
            proof {
                assert(old(out)@.push(CH_QUOTE) + t@ + seq![CH_QUOTE] =~= old(out)@ + (seq![CH_QUOTE] + t@ + seq![CH_QUOTE]));
            }
        },
    }
}

fn push_list(out: &mut Vec<u8>, l: &Vec<Element>)
    ensures
        final(out)@ == old(out)@ + list_text(elements_view(l@)),
{
    let ghost start = out@;
    let mut i: usize = 0;
    assert(elements_view(l@.subrange(0, 0)) =~= seq![]);
    while i < l.len()
        invariant
            i <= l@.len(),
            out@ == start + list_text(elements_view(l@.subrange(0, i as int))),
        decreases l@.len() - i,
    {
        let ghost before = out@;
        let ghost pre = elements_view(l@.subrange(0, i as int));
        let ghost post = elements_view(l@.subrange(0, i + 1));
        assert(post =~= pre.push(element_view(l@[i as int])));
        assert(post.drop_last() =~= pre);
        if i > 0 {
            out.push(CH_COMMA);
            out.push(CH_SPACE);
        }
        push_element(out, &l[i]);
        proof {
            if i > 0 {
                assert(out@ =~= start + (list_text(pre) + seq![CH_COMMA, CH_SPACE] + scalar_text(post.last())));
            } else {
                assert(out@ =~= start + list_text(post));
            }
        }
        i = i + 1;
    }
    assert(l@.subrange(0, l@.len() as int) =~= l@);
}

fn push_entry(out: &mut Vec<u8>, k: &[u8], e: &Entry, ind: &Vec<u8>)
    ensures
        final(out)@ == old(out)@ + entry_text(k@, entry_view(*e), ind@),
    decreases e,
{
    push_bytes(out, ind.as_slice());
    push_bytes(out, k);
    match e {
        Entry::List(l) => {
            out.push(CH_SPACE);
            out.push(CH_EQUALS);
            out.push(CH_SPACE);
            out.push(CH_BRACKET_OPEN);
            push_list(out, l);
            out.push(CH_BRACKET_CLOSE);
            out.push(CH_NL);
            proof {
                assert(out@ =~= old(out)@ + entry_text(k@, entry_view(*e), ind@));
            }
        },
        Entry::TextMap(m) => {
            out.push(CH_SPACE);
            out.push(CH_CURLY_OPEN);
            out.push(CH_NL);
            let ghost mid = out@;
            let mut inner = ind.clone();
            inner.push(CH_SPACE);
            inner.push(CH_SPACE);
            assert(inner@ =~= ind@ + seq![CH_SPACE, CH_SPACE]);
            push_map(out, m, &inner);
            push_bytes(out, ind.as_slice());
            out.push(CH_CURLY_CLOSE);
            out.push(CH_NL);
            proof {
                assert(out@ =~= old(out)@ + entry_text(k@, entry_view(*e), ind@));
            }
        },
        Entry::Number(n) => {
            out.push(CH_SPACE);
            out.push(CH_EQUALS);
            out.push(CH_SPACE);
            push_int(out, *n);
            out.push(CH_NL);
            proof {
                assert(out@ =~= old(out)@ + entry_text(k@, entry_view(*e), ind@));
            }
        },
        Entry::String(t) => {
            out.push(CH_SPACE);
            out.push(CH_EQUALS);
            out.push(CH_SPACE);
            out.push(CH_QUOTE);
            push_bytes(out, t.as_slice());
            out.push(CH_QUOTE);
            out.push(CH_NL);
            proof {
                assert(out@ =~= old(out)@ + entry_text(k@, entry_view(*e), ind@));
            }
        },
    }
}

fn push_map(out: &mut Vec<u8>, m: &LvmTextMap, ind: &Vec<u8>)
    ensures
        final(out)@ == old(out)@ + map_text(m@, ind@),
    decreases m,
{
    let ghost start = out@;
    let mut i: usize = 0;
    assert(entries_view(m.entries@.subrange(0, 0)) =~= seq![]);
    while i < m.entries.len()
        invariant
            i <= m.entries@.len(),
            out@ == start + map_text(entries_view(m.entries@.subrange(0, i as int)), ind@),
        decreases m.entries@.len() - i,
    {
        let ghost pre = m.entries@.subrange(0, i as int);
        let ghost post = m.entries@.subrange(0, i + 1);
        assert(post.drop_last() =~= pre);
        push_entry(out, m.entries[i].0.as_slice(), &m.entries[i].1, ind);
        proof {
            let ev = entries_view(post);
            assert(ev == entries_view(pre).push((m.entries@[i as int].0@, entry_view(m.entries@[i as int].1))));
            assert(ev.drop_last() =~= entries_view(pre));
            assert(map_text(ev, ind@) == map_text(entries_view(pre), ind@) + entry_text(m.entries@[i as int].0@, entry_view(m.entries@[i as int].1), ind@));
            assert(out@ =~= start + map_text(entries_view(post), ind@));
        }
        i = i + 1;
    }
    assert(m.entries@.subrange(0, m.entries@.len() as int) =~= m.entries@);
}

/// Write a map in the LVM text configuration format.
pub fn textmap_to_buf(tm: &LvmTextMap) -> (r: Vec<u8>)
    ensures
        r@ == map_text(tm@, seq![]),
{
    let mut out: Vec<u8> = Vec::new();
    let ind: Vec<u8> = Vec::new();
    push_map(&mut out, tm, &ind);
    assert(out@ =~= map_text(tm@, seq![]));
    out
}

/// Read a text in the LVM configuration format; the same as `buf_to_textmap`.
pub fn into_textmap(buf: &[u8]) -> (r: Result<LvmTextMap, ParseError>)
    ensures
        match parse_text(buf@) {
            Ok(m) => r matches Ok(v) && v@ == m,
            Err(e) => r == Err::<LvmTextMap, ParseError>(e),
        },
{
    buf_to_textmap(buf)
}

/// A copy of a byte string.
pub fn copy_bytes(b: &[u8]) -> (r: Vec<u8>)
    ensures
        r@ == b@,
{
    let mut v: Vec<u8> = Vec::new();
    push_all(&mut v, b);
    v
}

/// The bytes of a string.
pub fn text_bytes(s: &str) -> (r: Vec<u8>)
    ensures
        r@ == s.spec_bytes(),
{
    copy_bytes(s.as_bytes())
}

/// Typed lookups in a text map. Each returns the value under a key when
/// it is of the kind asked for, and `None` otherwise.
pub trait TextMapOps {
    spec fn text_view(&self) -> Seq<(Seq<u8>, Value)>;

    fn i64_from_textmap(&self, name: &[u8]) -> (r: Option<i64>)
        ensures
            match lookup(self.text_view(), name@) {
                Some(Value::Num(n)) => r == Some(n as i64) && i64::MIN <= n <= i64::MAX,
                _ => r is None,
            };

    fn string_from_textmap(&self, name: &[u8]) -> (r: Option<&Vec<u8>>)
        ensures
            match r {
                Some(v) => lookup(self.text_view(), name@) == Some(Value::Str(v@)),
                None => !(lookup(self.text_view(), name@) matches Some(Value::Str(_))),
            };

    fn list_from_textmap(&self, name: &[u8]) -> (r: Option<&Vec<Element>>)
        ensures
            match r {
                Some(v) => lookup(self.text_view(), name@) == Some(Value::List(elements_view(v@))),
                None => !(lookup(self.text_view(), name@) matches Some(Value::List(_))),
            };

    fn textmap_from_textmap(&self, name: &[u8]) -> (r: Option<&LvmTextMap>)
        ensures
            match r {
                Some(m) => lookup(self.text_view(), name@) == Some(Value::Section(m@)),
                None => !(lookup(self.text_view(), name@) matches Some(Value::Section(_))),
            };
}

impl TextMapOps for LvmTextMap {
    open spec fn text_view(&self) -> Seq<(Seq<u8>, Value)> {
        self@
    }

    fn i64_from_textmap(&self, name: &[u8]) -> (r: Option<i64>) {
        match self.get(name) {
            Some(Entry::Number(n)) => Some(*n),
            _ => None,
        }
    }

    fn string_from_textmap(&self, name: &[u8]) -> (r: Option<&Vec<u8>>) {
        match self.get(name) {
            Some(Entry::String(x)) => Some(x),
            _ => None,
        }
    }

    fn list_from_textmap(&self, name: &[u8]) -> (r: Option<&Vec<Element>>) {
        match self.get(name) {
            Some(Entry::List(x)) => Some(x),
            _ => None,
        }
    }

    fn textmap_from_textmap(&self, name: &[u8]) -> (r: Option<&LvmTextMap>) {
        match self.get(name) {
            Some(Entry::TextMap(x)) => Some(&**x),
            _ => None,
        }
    }
}

/// The strings of a list, in order, its numbers left out.
pub open spec fn strings_of(l: Seq<Value>) -> Seq<Seq<u8>>
    decreases l.len(),
{
    if l.len() == 0 {
        seq![]
    } else {
        match l.last() {
            Value::Str(t) => strings_of(l.drop_last()).push(t),
            _ => strings_of(l.drop_last()),
        }
    }
}

/// The views of a vector of byte strings.
pub open spec fn bytes_seq(v: Seq<Vec<u8>>) -> Seq<Seq<u8>> {
    v.map_values(|b: Vec<u8>| b@)
}

/// The strings of a list of elements.
pub fn strings_from_list(l: &Vec<Element>) -> (r: Vec<Vec<u8>>)
    ensures
        bytes_seq(r@) == strings_of(elements_view(l@)),
{
    let mut out: Vec<Vec<u8>> = Vec::new();
    let mut i: usize = 0;
    assert(elements_view(l@.subrange(0, 0)) =~= seq![]);
    assert(bytes_seq(out@) =~= seq![]);
    while i < l.len()
        invariant
            i <= l@.len(),
            bytes_seq(out@) == strings_of(elements_view(l@.subrange(0, i as int))),
        decreases l@.len() - i,
    {
        let ghost pre = elements_view(l@.subrange(0, i as int));
        let ghost post = elements_view(l@.subrange(0, i + 1));
        assert(post =~= pre.push(element_view(l@[i as int])));
        assert(post.drop_last() =~= pre);
        let ghost before = out@;
        match &l[i] {
            Element::String(t) => {
                out.push(copy_bytes(t.as_slice()));
                assert(bytes_seq(out@) =~= bytes_seq(before).push(t@));
            },
            Element::Number(_) => {},
        }
        i = i + 1;
    }
    assert(l@.subrange(0, l@.len() as int) =~= l@);
    out
}

/// The bytes of the key `status`.
pub open spec fn status_key() -> Seq<u8> {
    "status".spec_bytes()
}

/// A status given either as one string or as a list of strings, as a list.
pub open spec fn status_of(m: Seq<(Seq<u8>, Value)>) -> Option<Seq<Seq<u8>>> {
    match lookup(m, status_key()) {
        Some(Value::Str(t)) => Some(seq![t]),
        Some(Value::List(l)) => Some(strings_of(l)),
        _ => None,
    }
}

/// The `status` of a text map, which may be a string or a list, as a list
/// of strings.
pub fn status_from_textmap(map: &LvmTextMap) -> (r: Result<Vec<Vec<u8>>, Error>)
    ensures
        match status_of(map@) {
            Some(st) => r matches Ok(v) && bytes_seq(v@) == st,
            None => r matches Err(Error::Shape(k)) && k@ == status_key(),
        },
{
    let key: Vec<u8> = text_bytes("status");
    match map.get(key.as_slice()) {
        Some(Entry::String(x)) => {
            let mut v: Vec<Vec<u8>> = Vec::new();
            v.push(copy_bytes(x.as_slice()));
            assert(bytes_seq(v@) =~= seq![x@]);
            Ok(v)
        },
        Some(Entry::List(l)) => Ok(strings_from_list(l)),
        _ => Err(Error::Shape(key)),
    }
}

} // verus!

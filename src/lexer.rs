//! The tokenizer of the LVM text configuration format.
//!
//! The lexer is a byte-at-a-time state machine. Its meaning is the spec
//! function `lex`, which walks the same states; `tokenize` is proved to
//! produce exactly what `lex` describes.

use vstd::prelude::*;

verus! {

pub const CH_TAB: u8 = 9;
pub const CH_NL: u8 = 10;
pub const CH_SPACE: u8 = 32;
pub const CH_QUOTE: u8 = 34;
pub const CH_HASH: u8 = 35;
pub const CH_COMMA: u8 = 44;
pub const CH_MINUS: u8 = 45;
pub const CH_DOT: u8 = 46;
pub const CH_ZERO: u8 = 48;
pub const CH_NINE: u8 = 57;
pub const CH_EQUALS: u8 = 61;
pub const CH_BRACKET_OPEN: u8 = 91;
pub const CH_BRACKET_CLOSE: u8 = 93;
pub const CH_UNDERSCORE: u8 = 95;
pub const CH_CURLY_OPEN: u8 = 123;
pub const CH_CURLY_CLOSE: u8 = 125;

/// One token of the text format. Strings and identifiers are given as
/// byte ranges `[start, end)` of the input.
#[derive(Debug, Clone, Copy, PartialEq, Eq, Structural)]
pub enum Token {
    CurlyOpen,
    CurlyClose,
    BracketOpen,
    BracketClose,
    Equals,
    Comma,
    /// The bytes between the quotes.
    String(usize, usize),
    Ident(usize, usize),
    Number(i64),
}

/// What went wrong while reading text.
#[derive(Debug, Clone, Copy, PartialEq, Eq, Structural)]
pub enum ParseErrorKind {
    Unexpected,
    Unterminated,
    BadNumber,
    BadBrace,
}

/// A syntax error: its kind and where it was found (a byte offset for
/// errors of the lexer, a token index for errors of the grammar).
#[derive(Debug, Clone, Copy, PartialEq, Eq, Structural)]
pub struct ParseError {
    pub kind: ParseErrorKind,
    pub position: usize,
}

/// The lexer's state: what kind of token is being read, and where it began.
#[derive(Debug, Clone, Copy, PartialEq, Eq, Structural)]
pub enum LexMode {
    Main,
    String(usize),
    Ident(usize),
    Number(usize),
    Comment,
}

pub open spec fn is_digit(c: u8) -> bool {
    CH_ZERO <= c && c <= CH_NINE
}

pub open spec fn is_alpha(c: u8) -> bool {
    (65 <= c && c <= 90) || (97 <= c && c <= 122)
}

pub open spec fn is_ident_start(c: u8) -> bool {
    is_alpha(c) || c == CH_UNDERSCORE || c == CH_DOT
}

pub open spec fn is_ident_char(c: u8) -> bool {
    is_ident_start(c) || is_digit(c) || c == CH_MINUS
}

pub open spec fn is_blank(c: u8) -> bool {
    c == CH_SPACE || c == CH_NL || c == CH_TAB || c == 0
}

fn digit(c: u8) -> (r: bool)
    ensures
        r == is_digit(c),
{
    CH_ZERO <= c && c <= CH_NINE
}

fn ident_start(c: u8) -> (r: bool)
    ensures
        r == is_ident_start(c),
{
    (65 <= c && c <= 90) || (97 <= c && c <= 122) || c == CH_UNDERSCORE || c == CH_DOT
}

fn ident_char(c: u8) -> (r: bool)
    ensures
        r == is_ident_char(c),
{
    ident_start(c) || digit(c) || c == CH_MINUS
}

/// The value of the decimal digits `s[a..b]`.
pub open spec fn digits_value(s: Seq<u8>, a: int, b: int) -> nat
    decreases b - a,
{
    if b <= a {
        0
    } else {
        (digits_value(s, a, b - 1) * 10 + (s[b - 1] - CH_ZERO)) as nat
    }
}

pub const I64_MIN_MAGNITUDE: u64 = 0x8000_0000_0000_0000;

/// The number that `s[a..b]` denotes: an optional `-` and decimal digits,
/// or nothing where it is a lone `-` or does not fit in an `i64`.
pub open spec fn number_value(s: Seq<u8>, a: int, b: int) -> Option<i64> {
    if s[a] == CH_MINUS {
        if b == a + 1 || digits_value(s, a + 1, b) > I64_MIN_MAGNITUDE {
            None
        } else {
            Some((-digits_value(s, a + 1, b)) as i64)
        }
    } else if digits_value(s, a, b) >= I64_MIN_MAGNITUDE {
        None
    } else {
        Some(digits_value(s, a, b) as i64)
    }
}

proof fn lemma_digits_value_mono(s: Seq<u8>, a: int, k: int, b: int)
    requires
        a <= k <= b,
        forall|j: int| a <= j < b ==> is_digit(#[trigger] s[j]),
    ensures
        digits_value(s, a, k) <= digits_value(s, a, b),
    decreases b - k,
{
    if k < b {
        lemma_digits_value_mono(s, a, k, b - 1);
    }
}

/// Reads the number `s[a..b]`.
fn parse_number(s: &[u8], a: usize, b: usize) -> (r: Option<i64>)
    requires
        a < b <= s@.len(),
        s@[a as int] == CH_MINUS || is_digit(s@[a as int]),
        forall|j: int| a < j < b ==> is_digit(#[trigger] s@[j]),
    ensures
        r == number_value(s@, a as int, b as int),
{
    let neg = s[a] == CH_MINUS;
    let first = if neg { a + 1 } else { a };
    let mut acc: u64 = 0;
    let mut k = first;
    while k < b
        invariant
            first <= k <= b <= s@.len(),
            first == if neg { a + 1 } else { a as int },
            neg == (s@[a as int] == CH_MINUS),
            a < b,
            forall|j: int| first <= j < b ==> is_digit(#[trigger] s@[j]),
            acc == digits_value(s@, first as int, k as int),
            acc <= I64_MIN_MAGNITUDE,
        decreases b - k,
    {
        let d = (s[k] - CH_ZERO) as u64;
        assert(digits_value(s@, first as int, k + 1) == acc * 10 + d);
        if acc > (I64_MIN_MAGNITUDE - d) / 10 {
            proof {
                assert(digits_value(s@, first as int, k + 1) > I64_MIN_MAGNITUDE) by (nonlinear_arith)
                    requires
                        acc > (I64_MIN_MAGNITUDE - d) / 10,
                        digits_value(s@, first as int, k + 1) == acc * 10 + d,
                        d <= 9;
                lemma_digits_value_mono(s@, first as int, k + 1, b as int);
                assert(digits_value(s@, first as int, b as int) > I64_MIN_MAGNITUDE);
                assert(!neg ==> first == a);
            }
            return None;
        }
        proof {
            assert(acc * 10 + d <= I64_MIN_MAGNITUDE) by (nonlinear_arith)
                requires
                    acc <= (I64_MIN_MAGNITUDE - d) / 10,
                    d <= 9;
        }
        acc = acc * 10 + d;
        k = k + 1;
    }
    if neg {
        if b == a + 1 {
            None
        } else if acc == I64_MIN_MAGNITUDE {
            Some(i64::MIN)
        } else {
            Some(-(acc as i64))
        }
    } else if acc == I64_MIN_MAGNITUDE {
        None
    } else {
        Some(acc as i64)
    }
}

/// A token in front of a lexing outcome.
pub open spec fn prepend(t: Token, r: Result<Seq<Token>, ParseError>) -> Result<Seq<Token>, ParseError> {
    match r {
        Ok(ts) => Ok(seq![t] + ts),
        Err(e) => Err(e),
    }
}

/// Tokens already produced in front of a lexing outcome.
pub open spec fn prefix_with(p: Seq<Token>, r: Result<Seq<Token>, ParseError>) -> Result<Seq<Token>, ParseError> {
    match r {
        Ok(ts) => Ok(p + ts),
        Err(e) => Err(e),
    }
}

/// The lexer at byte `i` in its main state, `id` telling whether the next
/// word is read as an identifier even where it starts with a digit.
pub open spec fn main_step(s: Seq<u8>, i: int, id: bool) -> Result<Seq<Token>, ParseError>
    decreases s.len() - i, 0int,
{
    if i < 0 || i >= s.len() {
        Ok(seq![])
    } else {
        let c = s[i];
        if c == CH_CURLY_OPEN {
            prepend(Token::CurlyOpen, lex(s, i + 1, LexMode::Main, true))
        } else if c == CH_CURLY_CLOSE {
            prepend(Token::CurlyClose, lex(s, i + 1, LexMode::Main, id))
        } else if c == CH_BRACKET_OPEN {
            prepend(Token::BracketOpen, lex(s, i + 1, LexMode::Main, id))
        } else if c == CH_BRACKET_CLOSE {
            prepend(Token::BracketClose, lex(s, i + 1, LexMode::Main, id))
        } else if c == CH_EQUALS {
            prepend(Token::Equals, lex(s, i + 1, LexMode::Main, id))
        } else if c == CH_COMMA {
            prepend(Token::Comma, lex(s, i + 1, LexMode::Main, id))
        } else if c == CH_QUOTE {
            lex(s, i + 1, LexMode::String(i as usize), id)
        } else if is_ident_start(c) || (id && (is_digit(c) || c == CH_MINUS)) {
            lex(s, i + 1, LexMode::Ident(i as usize), id)
        } else if is_digit(c) || c == CH_MINUS {
            lex(s, i + 1, LexMode::Number(i as usize), id)
        } else if c == CH_HASH {
            lex(s, i + 1, LexMode::Comment, id)
        } else if is_blank(c) {
            lex(s, i + 1, LexMode::Main, id)
        } else {
            Err(ParseError { kind: ParseErrorKind::Unexpected, position: i as usize })
        }
    }
}

/// The tokens of `s` from byte `i` on, the lexer being in state `mode`.
pub open spec fn lex(s: Seq<u8>, i: int, mode: LexMode, id: bool) -> Result<Seq<Token>, ParseError>
    decreases s.len() - i, 1int,
{
    if i < 0 {
        Ok(seq![])
    } else if i >= s.len() {
        match mode {
            LexMode::String(a) => Err(ParseError { kind: ParseErrorKind::Unterminated, position: a }),
            LexMode::Ident(a) => Ok(seq![Token::Ident(a, s.len() as usize)]),
            LexMode::Number(a) => match number_value(s, a as int, s.len() as int) {
                Some(v) => Ok(seq![Token::Number(v)]),
                None => Err(ParseError { kind: ParseErrorKind::BadNumber, position: a }),
            },
            _ => Ok(seq![]),
        }
    } else {
        let c = s[i];
        match mode {
            LexMode::Main => main_step(s, i, id),
            LexMode::String(a) => if c == CH_QUOTE {
                prepend(Token::String((a + 1) as usize, i as usize), lex(s, i + 1, LexMode::Main, id))
            } else {
                lex(s, i + 1, mode, id)
            },
            LexMode::Ident(a) => if is_ident_char(c) {
                lex(s, i + 1, mode, id)
            } else {
                prepend(Token::Ident(a, i as usize), main_step(s, i, false))
            },
            LexMode::Number(a) => if is_digit(c) {
                lex(s, i + 1, mode, id)
            } else {
                match number_value(s, a as int, i) {
                    Some(v) => prepend(Token::Number(v), main_step(s, i, id)),
                    None => Err(ParseError { kind: ParseErrorKind::BadNumber, position: a }),
                }
            },
            LexMode::Comment => if c == CH_NL {
                lex(s, i + 1, LexMode::Main, id)
            } else {
                lex(s, i + 1, mode, id)
            },
        }
    }
}

/// The tokens of a whole input.
pub open spec fn lex_all(s: Seq<u8>) -> Result<Seq<Token>, ParseError> {
    lex(s, 0, LexMode::Main, false)
}

/// Every string and identifier token names a range of the input.
pub open spec fn tokens_in(s: Seq<u8>, toks: Seq<Token>) -> bool {
    forall|i: int| 0 <= i < toks.len() ==> match #[trigger] toks[i] {
        Token::String(a, b) => a <= b <= s.len(),
        Token::Ident(a, b) => a <= b <= s.len(),
        _ => true,
    }
}

/// What the lexer state promises about the bytes it has passed over.
pub open spec fn mode_ok(s: Seq<u8>, i: int, mode: LexMode) -> bool {
    match mode {
        LexMode::Number(a) => a < i && (s[a as int] == CH_MINUS || is_digit(s[a as int]))
            && forall|j: int| a < j < i ==> is_digit(#[trigger] s[j]),
        LexMode::String(a) => a < i,
        LexMode::Ident(a) => a < i,
        _ => true,
    }
}

/// A tokenizer over a byte buffer.
pub struct Lexer<'a> {
    chars: &'a [u8],
    cursor: usize,
    mode: LexMode,
    next_is_ident: bool,
}

impl<'a> Lexer<'a> {
    /// A lexer at the start of `chars`.
    pub fn new(chars: &'a [u8]) -> (r: Lexer<'a>)
        ensures
            r.input() == chars@,
            r.position() == 0,
    {
        Lexer { chars, cursor: 0, mode: LexMode::Main, next_is_ident: false }
    }

    pub closed spec fn input(&self) -> Seq<u8> {
        self.chars@
    }

    pub closed spec fn position(&self) -> int {
        self.cursor as int
    }

    /// All tokens of the input, or the first error.
    pub fn tokenize(&mut self) -> (r: Result<Vec<Token>, ParseError>)
        requires
            old(self).position() == 0,
        ensures
            match lex_all(old(self).input()) {
                Ok(ts) => r matches Ok(v) && v@ == ts,
                Err(e) => r == Err::<Vec<Token>, ParseError>(e),
            },
            r matches Ok(v) ==> tokens_in(old(self).input(), v@),
    {
        let s = self.chars;
        let n = s.len();
        self.mode = LexMode::Main;
        self.next_is_ident = false;
        let mut toks: Vec<Token> = Vec::new();
        while self.cursor < n
            invariant
                s@ == old(self).input(),
                n == s@.len(),
                self.chars@ == s@,
                self.cursor <= n,
                mode_ok(s@, self.cursor as int, self.mode),
                tokens_in(s@, toks@),
                prefix_with(toks@, lex(s@, self.cursor as int, self.mode, self.next_is_ident))
                    == lex_all(s@),
            decreases n - self.cursor, if self.mode == LexMode::Main { 0int } else { 1int },
        {
            let i = self.cursor;
            let c = s[i];
            let id = self.next_is_ident;
            match self.mode {
                LexMode::Main => {
                    let tok: Option<Token>;
                    if c == CH_CURLY_OPEN {
                        tok = Some(Token::CurlyOpen);
                        self.next_is_ident = true;
                    } else if c == CH_CURLY_CLOSE {
                        tok = Some(Token::CurlyClose);
                    } else if c == CH_BRACKET_OPEN {
                        tok = Some(Token::BracketOpen);
                    } else if c == CH_BRACKET_CLOSE {
                        tok = Some(Token::BracketClose);
                    } else if c == CH_EQUALS {
                        tok = Some(Token::Equals);
                    } else if c == CH_COMMA {
                        tok = Some(Token::Comma);
                    } else if c == CH_QUOTE {
                        tok = None;
                        self.mode = LexMode::String(i);
                    } else if ident_start(c) || (id && (digit(c) || c == CH_MINUS)) {
                        tok = None;
                        self.mode = LexMode::Ident(i);
                    } else if digit(c) || c == CH_MINUS {
                        tok = None;
                        self.mode = LexMode::Number(i);
                    } else if c == CH_HASH {
                        tok = None;
                        self.mode = LexMode::Comment;
                    } else if c == CH_SPACE || c == CH_NL || c == CH_TAB || c == 0 {
                        tok = None;
                    } else {
                        proof {
                            assert(toks@ + seq![] == toks@);
                        }
                        return Err(ParseError { kind: ParseErrorKind::Unexpected, position: i });
                    }
                    if let Some(t) = tok {
                        proof {
                            assert(toks@.push(t) + lex(s@, i + 1, self.mode, self.next_is_ident)->Ok_0
                                == toks@ + (seq![t] + lex(s@, i + 1, self.mode, self.next_is_ident)->Ok_0));
                        }
                        toks.push(t);
                    }
                    self.cursor = i + 1;
                },
                LexMode::String(a) => {
                    if c == CH_QUOTE {
                        let t = Token::String(a + 1, i);
                        proof {
                            assert(toks@.push(t) + lex(s@, i + 1, LexMode::Main, id)->Ok_0
                                == toks@ + (seq![t] + lex(s@, i + 1, LexMode::Main, id)->Ok_0));
                        }
                        toks.push(t);
                        self.mode = LexMode::Main;
                    }
                    self.cursor = i + 1;
                },
                LexMode::Ident(a) => {
                    if ident_char(c) {
                        self.cursor = i + 1;
                    } else {
                        let t = Token::Ident(a, i);
                        proof {
                            assert(toks@.push(t) + main_step(s@, i as int, false)->Ok_0
                                == toks@ + (seq![t] + main_step(s@, i as int, false)->Ok_0));
                        }
                        toks.push(t);
                        self.mode = LexMode::Main;
                        self.next_is_ident = false;
                    }
                },
                LexMode::Number(a) => {
                    if digit(c) {
                        self.cursor = i + 1;
                    } else {
                        match parse_number(s, a, i) {
                            Some(v) => {
                                let t = Token::Number(v);
                                proof {
                                    assert(toks@.push(t) + main_step(s@, i as int, id)->Ok_0
                                        == toks@ + (seq![t] + main_step(s@, i as int, id)->Ok_0));
                                }
                                toks.push(t);
                                self.mode = LexMode::Main;
                            },
                            None => {
                                return Err(ParseError { kind: ParseErrorKind::BadNumber, position: a });
                            },
                        }
                    }
                },
                LexMode::Comment => {
                    if c == CH_NL {
                        self.mode = LexMode::Main;
                    }
                    self.cursor = i + 1;
                },
            }
        }
        match self.mode {
            LexMode::String(a) => Err(ParseError { kind: ParseErrorKind::Unterminated, position: a }),
            LexMode::Ident(a) => {
                let t = Token::Ident(a, n);
                proof {
                    assert(toks@.push(t) == toks@ + seq![t]);
                }
                toks.push(t);
                Ok(toks)
            },
            LexMode::Number(a) => match parse_number(s, a, n) {
                Some(v) => {
                    let t = Token::Number(v);
                    proof {
                        assert(toks@.push(t) == toks@ + seq![t]);
                    }
                    toks.push(t);
                    Ok(toks)
                },
                None => Err(ParseError { kind: ParseErrorKind::BadNumber, position: a }),
            },
            _ => {
                proof {
                    assert(toks@ + seq![] == toks@);
                }
                Ok(toks)
            },
        }
    }
}

} // verus!

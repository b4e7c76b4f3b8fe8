//! PDF lexer: turns raw PDF bytes into syntactic tokens.
//!
//! The lexer works on a byte slice with a cursor. Its behaviour is described
//! by the spec function [`lex_at`], which gives the outcome of reading one
//! token from any position.

use vstd::prelude::*;
use crate::cos::CosName;
use crate::bytes::bytes_eq;
use crate::text::{char_from_u32, owned_text, push_char, push_str};

verus! {

// ---------------------------------------------------------------------------
// Byte classes
// ---------------------------------------------------------------------------

/// PDF white-space characters (PDF 32000 §7.2.2, Table 1).
pub open spec fn is_ws(b: u8) -> bool {
    b == 0x20 || b == 0x09 || b == 0x0a || b == 0x0d || b == 0x0c || b == 0x00
}

/// PDF delimiter characters (PDF 32000 §7.2.2, Table 2).
pub open spec fn is_delim(b: u8) -> bool {
    b == 0x28 || b == 0x29 || b == 0x3c || b == 0x3e || b == 0x5b || b == 0x5d
        || b == 0x7b || b == 0x7d || b == 0x2f || b == 0x25
}

pub open spec fn is_digit(b: u8) -> bool {
    0x30 <= b <= 0x39
}

pub open spec fn is_alpha(b: u8) -> bool {
    (0x41 <= b <= 0x5a) || (0x61 <= b <= 0x7a)
}

pub open spec fn is_hex(b: u8) -> bool {
    is_digit(b) || (0x41 <= b <= 0x46) || (0x61 <= b <= 0x66)
}

/// Value of a hexadecimal digit; 0 for any other byte.
pub open spec fn hex_val(b: u8) -> u8 {
    if is_digit(b) {
        (b - 0x30) as u8
    } else if 0x61 <= b <= 0x66 {
        (b - 0x61 + 10) as u8
    } else if 0x41 <= b <= 0x46 {
        (b - 0x41 + 10) as u8
    } else {
        0
    }
}

pub open spec fn is_keyword_byte(b: u8) -> bool {
    is_alpha(b) || b == 0x2a || b == 0x27 || b == 0x22
}

pub fn ws_byte(b: u8) -> (r: bool)
    ensures r == is_ws(b),
{
    b == 0x20 || b == 0x09 || b == 0x0a || b == 0x0d || b == 0x0c || b == 0x00
}

pub fn delim_byte(b: u8) -> (r: bool)
    ensures r == is_delim(b),
{
    b == 0x28 || b == 0x29 || b == 0x3c || b == 0x3e || b == 0x5b || b == 0x5d
        || b == 0x7b || b == 0x7d || b == 0x2f || b == 0x25
}

pub fn digit_byte(b: u8) -> (r: bool)
    ensures r == is_digit(b),
{
    0x30 <= b && b <= 0x39
}

pub fn alpha_byte(b: u8) -> (r: bool)
    ensures r == is_alpha(b),
{
    (0x41 <= b && b <= 0x5a) || (0x61 <= b && b <= 0x7a)
}

pub fn hex_byte(b: u8) -> (r: bool)
    ensures r == is_hex(b),
{
    (0x30 <= b && b <= 0x39) || (0x41 <= b && b <= 0x46) || (0x61 <= b && b <= 0x66)
}

pub fn hex_digit(b: u8) -> (r: u8)
    ensures r == hex_val(b), r < 16,
{
    if 0x30 <= b && b <= 0x39 {
        b - 0x30
    } else if 0x61 <= b && b <= 0x66 {
        b - 0x61 + 10
    } else if 0x41 <= b && b <= 0x46 {
        b - 0x41 + 10
    } else {
        0
    }
}

// ---------------------------------------------------------------------------
// Tokens
// ---------------------------------------------------------------------------

/// A single lexical token from the PDF byte stream.
#[derive(Debug, PartialEq)]
pub enum Token {
    /// A boolean keyword: `true` or `false`.
    Bool(bool),
    /// An integer literal.
    Integer(i64),
    /// A real literal, kept as the exact text it was written with.
    Real(Vec<u8>),
    /// A literal string `(...)` with its escape sequences resolved.
    LiteralString(Vec<u8>),
    /// A hex string `<...>`, decoded.
    HexString(Vec<u8>),
    /// A name `/Something`, with `#XX` escapes resolved.
    Name(CosName),
    /// Any other run of keyword characters (`null`, `obj`, `R`, `T*`, ...).
    Keyword(Vec<u8>),
    ArrayStart,
    ArrayEnd,
    DictStart,
    DictEnd,
}

/// Mathematical model of a token.
pub enum TokenV {
    Bool(bool),
    Integer(int),
    Real(Seq<u8>),
    LiteralString(Seq<u8>),
    HexString(Seq<u8>),
    Name(Seq<u8>),
    Keyword(Seq<u8>),
    ArrayStart,
    ArrayEnd,
    DictStart,
    DictEnd,
}

impl Token {
    pub open spec fn view(&self) -> TokenV {
        match self {
            Token::Bool(b) => TokenV::Bool(*b),
            Token::Integer(i) => TokenV::Integer(*i as int),
            Token::Real(t) => TokenV::Real(t@),
            Token::LiteralString(s) => TokenV::LiteralString(s@),
            Token::HexString(s) => TokenV::HexString(s@),
            Token::Name(n) => TokenV::Name(n.bytes@),
            Token::Keyword(k) => TokenV::Keyword(k@),
            Token::ArrayStart => TokenV::ArrayStart,
            Token::ArrayEnd => TokenV::ArrayEnd,
            Token::DictStart => TokenV::DictStart,
            Token::DictEnd => TokenV::DictEnd,
        }
    }

    /// Returns `true` if this token is the keyword `kw`.
    pub fn is_keyword(&self, kw: &[u8]) -> (r: bool)
        ensures r == (self@ == TokenV::Keyword(kw@)),
    {
        match self {
            Token::Keyword(k) => {
                let r = bytes_eq(k.as_slice(), kw);
                proof {
                    if self@ == TokenV::Keyword(kw@) {
                        assert(k@ == kw@);
                    }
                }
                r
            }
            _ => false,
        }
    }
}

// ---------------------------------------------------------------------------
// Specification of the lexer
// ---------------------------------------------------------------------------

/// Position reached after skipping white space and `%` comments from `pos`
/// (`in_comment` tells whether `pos` lies inside a comment).
pub open spec fn skip_ws_from(data: Seq<u8>, pos: int, in_comment: bool) -> int
    decreases data.len() - pos,
{
    if pos < 0 || pos >= data.len() {
        pos
    } else if in_comment {
        skip_ws_from(data, pos + 1, !(data[pos] == 0x0a || data[pos] == 0x0d))
    } else if is_ws(data[pos]) {
        skip_ws_from(data, pos + 1, false)
    } else if data[pos] == 0x25 {
        skip_ws_from(data, pos + 1, true)
    } else {
        pos
    }
}

pub open spec fn skip_ws(data: Seq<u8>, pos: int) -> int {
    skip_ws_from(data, pos, false)
}

/// Outcome of one lexer step.
pub enum LexOut {
    /// End of input; the cursor ends at `end`.
    Eof(int),
    /// A token ending at `end`.
    Tok(TokenV, int),
    /// A lexical error at the given byte offset.
    Bad(int),
}

/// Reading a hex string body: hex digits collected so far in `acc`.
pub open spec fn hex_body(data: Seq<u8>, pos: int, acc: Seq<u8>) -> LexOut
    decreases data.len() - pos,
{
    if pos < 0 || pos >= data.len() {
        LexOut::Bad(data.len() as int)
    } else if data[pos] == 0x3e {
        LexOut::Tok(TokenV::HexString(hex_decode(acc)), pos + 1)
    } else if is_ws(data[pos]) {
        hex_body(data, pos + 1, acc)
    } else if is_hex(data[pos]) {
        hex_body(data, pos + 1, acc.push(data[pos]))
    } else {
        LexOut::Bad(pos)
    }
}

/// Decodes hex digits to bytes; an odd final digit is padded with `0`.
pub open spec fn hex_decode(digits: Seq<u8>) -> Seq<u8>
    decreases digits.len(),
{
    if digits.len() == 0 {
        Seq::empty()
    } else if digits.len() == 1 {
        seq![(hex_val(digits[0]) * 16) as u8]
    } else {
        seq![(hex_val(digits[0]) * 16 + hex_val(digits[1])) as u8]
            + hex_decode(digits.subrange(2, digits.len() as int))
    }
}

/// Reading a literal string body at nesting `depth`, with `acc` the bytes
/// produced so far.
pub open spec fn lit_body(data: Seq<u8>, pos: int, depth: int, acc: Seq<u8>) -> LexOut
    decreases data.len() - pos,
{
    if pos < 0 || pos >= data.len() {
        LexOut::Bad(data.len() as int)
    } else {
        let b = data[pos];
        if b == 0x28 {
            lit_body(data, pos + 1, depth + 1, acc.push(0x28))
        } else if b == 0x29 {
            if depth - 1 == 0 {
                LexOut::Tok(TokenV::LiteralString(acc), pos + 1)
            } else {
                lit_body(data, pos + 1, depth - 1, acc.push(0x29))
            }
        } else if b == 0x5c {
            if pos + 1 >= data.len() {
                LexOut::Bad(data.len() as int)
            } else {
                let e = data[pos + 1];
                let p = pos + 2;
                if e == 0x6e {
                    lit_body(data, p, depth, acc.push(0x0a))
                } else if e == 0x72 {
                    lit_body(data, p, depth, acc.push(0x0d))
                } else if e == 0x74 {
                    lit_body(data, p, depth, acc.push(0x09))
                } else if e == 0x62 {
                    lit_body(data, p, depth, acc.push(0x08))
                } else if e == 0x66 {
                    lit_body(data, p, depth, acc.push(0x0c))
                } else if e == 0x0d {
                    if p < data.len() && data[p] == 0x0a {
                        lit_body(data, p + 1, depth, acc)
                    } else {
                        lit_body(data, p, depth, acc)
                    }
                } else if e == 0x0a {
                    lit_body(data, p, depth, acc)
                } else if is_digit(e) {
                    let n = octal_len(data, p);
                    lit_body(data, p + n, depth, acc.push((octal_int(data, pos + 1, n + 1) % 256) as u8))
                } else {
                    lit_body(data, p, depth, acc.push(e))
                }
            }
        } else {
            lit_body(data, pos + 1, depth, acc.push(b))
        }
    }
}

/// Bytes that may continue an octal escape.
pub open spec fn is_octal(b: u8) -> bool {
    is_digit(b) && b <= 0x37
}

/// Number of further octal digits (0, 1 or 2) that follow at `p`.
pub open spec fn octal_len(data: Seq<u8>, p: int) -> int {
    if p < data.len() && is_octal(data[p]) {
        if p + 1 < data.len() && is_octal(data[p + 1]) {
            2
        } else {
            1
        }
    } else {
        0
    }
}

/// Value of the `count` digits starting at `start`, read in base 8.
pub open spec fn octal_int(data: Seq<u8>, start: int, count: int) -> int
    decreases count,
{
    if count <= 0 {
        0
    } else {
        octal_int(data, start, count - 1) * 8 + (data[start + count - 1] - 0x30)
    }
}

/// Reading a name body: `acc` the bytes produced so far.
pub open spec fn name_body(data: Seq<u8>, pos: int, acc: Seq<u8>) -> LexOut
    decreases data.len() - pos,
{
    if pos < 0 || pos >= data.len() || is_ws(data[pos]) || is_delim(data[pos]) {
        LexOut::Tok(TokenV::Name(acc), pos)
    } else if data[pos] == 0x23 {
        if pos + 2 >= data.len() {
            LexOut::Bad(data.len() as int)
        } else if !is_hex(data[pos + 1]) || !is_hex(data[pos + 2]) {
            LexOut::Bad(pos + 1)
        } else {
            name_body(data, pos + 3, acc.push((hex_val(data[pos + 1]) * 16 + hex_val(data[pos + 2])) as u8))
        }
    } else {
        name_body(data, pos + 1, acc.push(data[pos]))
    }
}

/// End of the number text that starts at `start` (after an optional sign,
/// digits and at most one dot).
pub open spec fn number_end(data: Seq<u8>, pos: int, has_dot: bool) -> int
    decreases data.len() - pos,
{
    if pos < 0 || pos >= data.len() {
        pos
    } else if data[pos] == 0x2e {
        if has_dot { pos } else { number_end(data, pos + 1, true) }
    } else if is_digit(data[pos]) {
        number_end(data, pos + 1, has_dot)
    } else {
        pos
    }
}

pub open spec fn has_sign(data: Seq<u8>, pos: int) -> bool {
    0 <= pos < data.len() && (data[pos] == 0x2b || data[pos] == 0x2d)
}

pub open spec fn number_text_end(data: Seq<u8>, start: int) -> int {
    number_end(data, if has_sign(data, start) { start + 1 } else { start }, false)
}

pub open spec fn contains_byte(s: Seq<u8>, b: u8) -> bool {
    exists|i: int| 0 <= i < s.len() && s[i] == b
}

pub open spec fn contains_digit(s: Seq<u8>) -> bool {
    exists|i: int| 0 <= i < s.len() && is_digit(s[i])
}

/// Decimal value of a run of digits.
pub open spec fn digits_value(s: Seq<u8>) -> int
    decreases s.len(),
{
    if s.len() == 0 {
        0
    } else {
        digits_value(s.drop_last()) * 10 + (s.last() - 0x30)
    }
}

/// Signed value of number text without a dot (`+`/`-` optional).
pub open spec fn integer_text_value(t: Seq<u8>) -> int {
    if t.len() > 0 && t[0] == 0x2d {
        -digits_value(t.subrange(1, t.len() as int))
    } else if t.len() > 0 && t[0] == 0x2b {
        digits_value(t.subrange(1, t.len() as int))
    } else {
        digits_value(t)
    }
}

pub open spec fn number_token(data: Seq<u8>, start: int) -> LexOut {
    let end = number_text_end(data, start);
    let t = data.subrange(start, end);
    if contains_byte(t, 0x2e) {
        if contains_digit(t) {
            LexOut::Tok(TokenV::Real(t), end)
        } else {
            LexOut::Bad(start)
        }
    } else {
        let v = integer_text_value(t);
        if contains_digit(t) && i64::MIN <= v <= i64::MAX {
            LexOut::Tok(TokenV::Integer(v), end)
        } else {
            LexOut::Bad(start)
        }
    }
}

pub open spec fn keyword_end(data: Seq<u8>, pos: int) -> int
    decreases data.len() - pos,
{
    if pos < 0 || pos >= data.len() || !is_keyword_byte(data[pos]) {
        pos
    } else {
        keyword_end(data, pos + 1)
    }
}

pub open spec fn keyword_token(data: Seq<u8>, start: int) -> LexOut {
    let end = keyword_end(data, start);
    let w = data.subrange(start, end);
    if w == seq![0x74u8, 0x72, 0x75, 0x65] {
        LexOut::Tok(TokenV::Bool(true), end)
    } else if w == seq![0x66u8, 0x61, 0x6c, 0x73, 0x65] {
        LexOut::Tok(TokenV::Bool(false), end)
    } else {
        LexOut::Tok(TokenV::Keyword(w), end)
    }
}

/// The outcome of reading one token at `pos`.
pub open spec fn lex_at(data: Seq<u8>, pos: int) -> LexOut {
    let p = skip_ws(data, pos);
    if p < 0 || p >= data.len() {
        LexOut::Eof(p)
    } else {
        let b = data[p];
        if b == 0x5b {
            LexOut::Tok(TokenV::ArrayStart, p + 1)
        } else if b == 0x5d {
            LexOut::Tok(TokenV::ArrayEnd, p + 1)
        } else if b == 0x3c {
            if p + 1 < data.len() && data[p + 1] == 0x3c {
                LexOut::Tok(TokenV::DictStart, p + 2)
            } else {
                hex_body(data, p + 1, Seq::empty())
            }
        } else if b == 0x3e {
            if p + 1 < data.len() && data[p + 1] == 0x3e {
                LexOut::Tok(TokenV::DictEnd, p + 2)
            } else {
                LexOut::Bad(p)
            }
        } else if b == 0x28 {
            lit_body(data, p + 1, 1, Seq::empty())
        } else if b == 0x2f {
            name_body(data, p + 1, Seq::empty())
        } else if b == 0x2b || b == 0x2d || b == 0x2e || is_digit(b) {
            number_token(data, p)
        } else if is_alpha(b) {
            keyword_token(data, p)
        } else {
            LexOut::Bad(p)
        }
    }
}

// ---------------------------------------------------------------------------
// Lexer
// ---------------------------------------------------------------------------

/// Lexer error with byte-offset context.
#[derive(Debug, Clone, PartialEq, Eq)]
pub struct LexError {
    pub message: String,
    pub offset: usize,
}

/// Lexer state: a byte slice with a position cursor.
pub struct Lexer<'a> {
    pub data: &'a [u8],
    pub pos: usize,
}

impl<'a> Lexer<'a> {
    /// Creates a new lexer over the given byte slice.
    pub fn new(data: &'a [u8]) -> (r: Self)
        ensures r.data@ == data@, r.pos == 0,
    {
        Lexer { data, pos: 0 }
    }

    /// Returns the current byte offset.
    pub fn position(&self) -> (r: usize)
        ensures r == self.pos,
    {
        self.pos
    }

    /// Sets the position (used by the parser for seeking).
    pub fn set_position(&mut self, pos: usize)
        ensures final(self).pos == pos, final(self).data@ == old(self).data@,
    {
        self.pos = pos;
    }

    /// Returns `true` when all input has been consumed.
    pub fn is_eof(&self) -> (r: bool)
        ensures r == (self.pos >= self.data@.len()),
    {
        self.pos >= self.data.len()
    }

    /// Reads the next token, or `None` at end of input.
    pub fn next_token(&mut self) -> (r: Result<Option<Token>, LexError>)
        requires old(self).pos <= old(self).data@.len(),
        ensures
            final(self).data@ == old(self).data@,
            final(self).pos <= final(self).data@.len(),
            match lex_at(old(self).data@, old(self).pos as int) {
                LexOut::Eof(e) => r == Ok::<Option<Token>, LexError>(None) && final(self).pos == e,
                LexOut::Tok(t, e) => r is Ok && r->Ok_0 is Some && r->Ok_0->Some_0@ == t
                    && final(self).pos == e,
                LexOut::Bad(o) => r is Err && r->Err_0.offset == o,
            },
    {
        match lex_token(self.data, self.pos) {
            Ok((tok, end)) => {
                self.pos = end;
                Ok(tok)
            }
            Err(e) => Err(e),
        }
    }
}

/// Skips white space and comments from `pos`.
pub fn skip_whitespace_and_comments(data: &[u8], pos: usize) -> (r: usize)
    requires pos <= data@.len(),
    ensures r == skip_ws(data@, pos as int), pos <= r <= data@.len(),
{
    let mut p = pos;
    let mut in_comment = false;
    while p < data.len()
        invariant
            pos <= p <= data@.len(),
            skip_ws_from(data@, p as int, in_comment) == skip_ws(data@, pos as int),
        decreases data@.len() - p,
    {
        let b = data[p];
        if in_comment {
            in_comment = !(b == 0x0a || b == 0x0d);
        } else if ws_byte(b) {
        } else if b == 0x25 {
            in_comment = true;
        } else {
            return p;
        }
        p += 1;
    }
    p
}

/// Reads one token at `pos`: `(None, end)` at end of input, else the token
/// and the position just after it.
pub fn lex_token(data: &[u8], pos: usize) -> (r: Result<(Option<Token>, usize), LexError>)
    requires pos <= data@.len(),
    ensures
        match lex_at(data@, pos as int) {
            LexOut::Eof(e) => r is Ok && r->Ok_0.0 is None && r->Ok_0.1 == e,
            LexOut::Tok(t, e) => r is Ok && r->Ok_0.0 is Some && r->Ok_0.0->Some_0@ == t && r->Ok_0.1 == e,
            LexOut::Bad(o) => r is Err && r->Err_0.offset == o,
        },
        r is Ok ==> pos <= r->Ok_0.1 <= data@.len(),
        r is Ok && r->Ok_0.0 is Some ==> pos < r->Ok_0.1,
{
    let p = skip_whitespace_and_comments(data, pos);
    if p >= data.len() {
        return Ok((None, p));
    }
    let b = data[p];
    if b == 0x5b {
        Ok((Some(Token::ArrayStart), p + 1))
    } else if b == 0x5d {
        Ok((Some(Token::ArrayEnd), p + 1))
    } else if b == 0x3c {
        if p + 1 < data.len() && data[p + 1] == 0x3c {
            Ok((Some(Token::DictStart), p + 2))
        } else {
            match read_hex_string(data, p + 1) {
                Ok((s, e)) => Ok((Some(Token::HexString(s)), e)),
                Err(e) => Err(e),
            }
        }
    } else if b == 0x3e {
        if p + 1 < data.len() && data[p + 1] == 0x3e {
            Ok((Some(Token::DictEnd), p + 2))
        } else {
            Err(LexError::unexpected(b, p))
        }
    } else if b == 0x28 {
        match read_literal_string(data, p + 1) {
            Ok((s, e)) => Ok((Some(Token::LiteralString(s)), e)),
            Err(e) => Err(e),
        }
    } else if b == 0x2f {
        match read_name(data, p + 1) {
            Ok((n, e)) => Ok((Some(Token::Name(n)), e)),
            Err(e) => Err(e),
        }
    } else if b == 0x2b || b == 0x2d || b == 0x2e || digit_byte(b) {
        match read_number(data, p) {
            Ok((t, e)) => Ok((Some(t), e)),
            Err(e) => Err(e),
        }
    } else if alpha_byte(b) {
        let (t, e) = read_keyword_or_bool(data, p);
        Ok((Some(t), e))
    } else {
        Err(LexError::unexpected(b, p))
    }
}

fn read_hex_string(data: &[u8], pos: usize) -> (r: Result<(Vec<u8>, usize), LexError>)
    requires pos <= data@.len(),
    ensures
        match hex_body(data@, pos as int, Seq::empty()) {
            LexOut::Tok(t, e) => r is Ok && t == TokenV::HexString(r->Ok_0.0@) && r->Ok_0.1 == e,
            LexOut::Bad(o) => r is Err && r->Err_0.offset == o,
            LexOut::Eof(_) => false,
        },
        r is Ok ==> pos < r->Ok_0.1 <= data@.len(),
{
    let mut p = pos;
    let mut hex: Vec<u8> = Vec::new();
    loop
        invariant
            pos <= p <= data@.len(),
            hex_body(data@, p as int, hex@) == hex_body(data@, pos as int, Seq::empty()),
        decreases data@.len() - p,
    {
        if p >= data.len() {
            return Err(LexError::unterminated("hex string", p));
        }
        let b = data[p];
        p += 1;
        if b == 0x3e {
            let bytes = decode_hex_digits(&hex);
            return Ok((bytes, p));
        } else if ws_byte(b) {
        } else if hex_byte(b) {
            hex.push(b);
        } else {
            return Err(LexError::invalid_hex(b, p - 1));
        }
    }
}

fn read_literal_string(data: &[u8], pos: usize) -> (r: Result<(Vec<u8>, usize), LexError>)
    requires pos <= data@.len(),
    ensures
        match lit_body(data@, pos as int, 1, Seq::empty()) {
            LexOut::Tok(t, e) => r is Ok && t == TokenV::LiteralString(r->Ok_0.0@) && r->Ok_0.1 == e,
            LexOut::Bad(o) => r is Err && r->Err_0.offset == o,
            LexOut::Eof(_) => false,
        },
        r is Ok ==> pos < r->Ok_0.1 <= data@.len(),
{
    let mut p = pos;
    let mut result: Vec<u8> = Vec::new();
    let mut depth: u128 = 1;
    loop
        invariant
            pos <= p <= data@.len(),
            1 <= depth <= p - pos + 1,
            lit_body(data@, p as int, depth as int, result@) == lit_body(data@, pos as int, 1, Seq::empty()),
        decreases data@.len() - p,
    {
        if p >= data.len() {
            return Err(LexError::unterminated("literal string", p));
        }
        let b = data[p];
        p += 1;
        if b == 0x28 {
            depth += 1;
            result.push(0x28);
        } else if b == 0x29 {
            depth -= 1;
            if depth == 0 {
                return Ok((result, p));
            }
            result.push(0x29);
        } else if b == 0x5c {
            if p >= data.len() {
                return Err(LexError::unterminated("literal string escape", p));
            }
            let e = data[p];
            p += 1;
            if e == 0x6e {
                result.push(0x0a);
            } else if e == 0x72 {
                result.push(0x0d);
            } else if e == 0x74 {
                result.push(0x09);
            } else if e == 0x62 {
                result.push(0x08);
            } else if e == 0x66 {
                result.push(0x0c);
            } else if e == 0x0d {
                if p < data.len() && data[p] == 0x0a {
                    p += 1;
                }
            } else if e == 0x0a {
            } else if digit_byte(e) {
                let ghost p0 = p as int;
                let mut octal: u16 = (e - 0x30) as u16;
                if p < data.len() && digit_byte(data[p]) && data[p] <= 0x37 {
                    octal = octal * 8 + (data[p] - 0x30) as u16;
                    p += 1;
                    if p < data.len() && digit_byte(data[p]) && data[p] <= 0x37 {
                        octal = octal * 8 + (data[p] - 0x30) as u16;
                        p += 1;
                    }
                }
                proof {
                    reveal_with_fuel(octal_int, 4);
                    assert(octal as int == octal_int(data@, p0 - 1, octal_len(data@, p0) + 1));
                    assert(p == p0 + octal_len(data@, p0));
                }
                result.push((octal % 256) as u8);
            } else {
                result.push(e);
            }
        } else {
            result.push(b);
        }
    }
}

fn read_name(data: &[u8], pos: usize) -> (r: Result<(CosName, usize), LexError>)
    requires pos <= data@.len(),
    ensures
        match name_body(data@, pos as int, Seq::empty()) {
            LexOut::Tok(t, e) => r is Ok && t == TokenV::Name(r->Ok_0.0.bytes@) && r->Ok_0.1 == e,
            LexOut::Bad(o) => r is Err && r->Err_0.offset == o,
            LexOut::Eof(_) => false,
        },
        r is Ok ==> pos <= r->Ok_0.1 <= data@.len(),
{
    let mut p = pos;
    let mut name_bytes: Vec<u8> = Vec::new();
    while p < data.len()
        invariant
            pos <= p <= data@.len(),
            name_body(data@, p as int, name_bytes@) == name_body(data@, pos as int, Seq::empty()),
        decreases data@.len() - p,
    {
        let b = data[p];
        if ws_byte(b) || delim_byte(b) {
            return Ok((CosName { bytes: name_bytes }, p));
        }
        p += 1;
        if b == 0x23 {
            if data.len() - p < 2 {
                return Err(LexError::unterminated("name hex escape", data.len()));
            }
            let hi = data[p];
            let lo = data[p + 1];
            p += 2;
            if !hex_byte(hi) || !hex_byte(lo) {
                return Err(LexError::invalid_hex(hi, p - 2));
            }
            name_bytes.push(hex_digit(hi) * 16 + hex_digit(lo));
        } else {
            name_bytes.push(b);
        }
    }
    Ok((CosName { bytes: name_bytes }, p))
}

fn read_number(data: &[u8], start: usize) -> (r: Result<(Token, usize), LexError>)
    requires start < data@.len(),
    ensures
        match number_token(data@, start as int) {
            LexOut::Tok(t, e) => r is Ok && r->Ok_0.0@ == t && r->Ok_0.1 == e,
            LexOut::Bad(o) => r is Err && r->Err_0.offset == o,
            LexOut::Eof(_) => false,
        },
        r is Ok ==> start < r->Ok_0.1 <= data@.len(),
{
    let ghost d = data@;
    let mut p = start;
    let mut has_dot = false;
    if data[p] == 0x2b || data[p] == 0x2d {
        p += 1;
    }
    let after_sign = p;
    let mut stop = false;
    while p < data.len() && !stop
        invariant
            d == data@,
            start <= after_sign <= p <= d.len(),
            after_sign == if has_sign(d, start as int) { start + 1 } else { start as int },
            number_end(d, p as int, has_dot) == number_text_end(d, start as int),
            stop ==> number_end(d, p as int, has_dot) == p,
            has_dot == contains_byte(d.subrange(after_sign as int, p as int), 0x2e),
            forall|k: int| after_sign <= k < p ==> d[k] == 0x2e || is_digit(d[k]),
        decreases d.len() - p, if stop { 0int } else { 1int },
    {
        let b = data[p];
        if b == 0x2e {
            if has_dot {
                stop = true;
            } else {
                proof {
                    let s0 = d.subrange(after_sign as int, p as int);
                    let s1 = d.subrange(after_sign as int, p + 1);
                    assert(s1 == s0.push(b));
                    assert(s1[p - after_sign] == 0x2e);
                }
                has_dot = true;
                p += 1;
            }
        } else if digit_byte(b) {
            proof {
                let s0 = d.subrange(after_sign as int, p as int);
                let s1 = d.subrange(after_sign as int, p + 1);
                assert(s1 == s0.push(b));
                if contains_byte(s1, 0x2e) {
                    let k = choose|k: int| 0 <= k < s1.len() && s1[k] == 0x2e;
                    assert(k < s0.len());
                    assert(s0[k] == 0x2e);
                }
                if contains_byte(s0, 0x2e) {
                    let k = choose|k: int| 0 <= k < s0.len() && s0[k] == 0x2e;
                    assert(s1[k] == 0x2e);
                }
            }
            p += 1;
        } else {
            stop = true;
        }
    }
    let end = p;
    let slice = &data[start..end];
    proof {
        assert(number_end(d, end as int, has_dot) == end);
        assert(slice@ == d.subrange(start as int, end as int));
        let t = d.subrange(start as int, end as int);
        let u = d.subrange(after_sign as int, end as int);
        if after_sign == start + 1 {
            assert(t == seq![d[start as int]] + u);
            assert(contains_byte(t, 0x2e) == contains_byte(u, 0x2e)) by {
                if contains_byte(t, 0x2e) {
                    let k = choose|k: int| 0 <= k < t.len() && t[k] == 0x2e;
                    assert(k > 0);
                    assert(u[k - 1] == 0x2e);
                }
                if contains_byte(u, 0x2e) {
                    let k = choose|k: int| 0 <= k < u.len() && u[k] == 0x2e;
                    assert(t[k + 1] == 0x2e);
                }
            }
        } else {
            assert(t == u);
        }
    }
    let has_digit = any_digit(slice);
    if has_dot {
        if has_digit {
            proof {
                let k = choose|k: int| 0 <= k < slice@.len() && is_digit(slice@[k]);
                assert(end > start);
            }
            Ok((Token::Real(vstd::slice::slice_to_vec(slice)), end))
        } else {
            Err(LexError::invalid_number(start))
        }
    } else {
        proof {
            assert forall|k: int| 0 <= k < slice@.len() implies is_digit(slice@[k]) || (k == 0 && (slice@[0] == 0x2b || slice@[0] == 0x2d)) by {
                if k + start >= after_sign {
                    assert(slice@[k] == d[k + start]);
                    if d[k + start] == 0x2e {
                        assert(d.subrange(after_sign as int, end as int)[k + start - after_sign] == 0x2e);
                    }
                }
            }
        }
        match parse_i64_text(slice) {
            Some(v) => {
                proof {
                    let k = choose|k: int| 0 <= k < slice@.len() && is_digit(slice@[k]);
                    assert(end > start);
                }
                Ok((Token::Integer(v), end))
            }
            None => Err(LexError::invalid_number(start)),
        }
    }
}

fn read_keyword_or_bool(data: &[u8], start: usize) -> (r: (Token, usize))
    requires start < data@.len(), is_alpha(data@[start as int]),
    ensures
        keyword_token(data@, start as int) == LexOut::Tok(r.0@, r.1 as int),
        start < r.1 <= data@.len(),
{
    let mut p = start;
    let mut stop = false;
    while p < data.len() && !stop
        invariant
            start <= p <= data@.len(),
            keyword_end(data@, p as int) == keyword_end(data@, start as int),
            stop ==> keyword_end(data@, p as int) == p,
            p == start ==> !stop,
            start < data@.len(), is_alpha(data@[start as int]),
        decreases data@.len() - p, if stop { 0int } else { 1int },
    {
        let b = data[p];
        if alpha_byte(b) || b == 0x2a || b == 0x27 || b == 0x22 {
            p += 1;
        } else {
            stop = true;
        }
    }
    let word = &data[start..p];
    let t: [u8; 4] = [0x74, 0x72, 0x75, 0x65];
    let f: [u8; 5] = [0x66, 0x61, 0x6c, 0x73, 0x65];
    if bytes_eq(word, t.as_slice()) {
        proof { assert(t@ =~= seq![0x74u8, 0x72, 0x75, 0x65]); }
        (Token::Bool(true), p)
    } else if bytes_eq(word, f.as_slice()) {
        proof { assert(f@ =~= seq![0x66u8, 0x61, 0x6c, 0x73, 0x65]); }
        (Token::Bool(false), p)
    } else {
        (Token::Keyword(vstd::slice::slice_to_vec(word)), p)
    }
}

/// Decodes collected hex digits to bytes, padding an odd final digit with `0`.
pub fn decode_hex_digits(hex: &Vec<u8>) -> (r: Vec<u8>)
    ensures r@ == hex_decode(hex@),
{
    let mut out: Vec<u8> = Vec::new();
    let mut i: usize = 0;
    assert(hex@.subrange(0, hex@.len() as int) == hex@);
    while i < hex.len()
        invariant
            i <= hex.len(),
            i % 2 == 0 || i == hex.len(),
            out@ + hex_decode(hex@.subrange(i as int, hex@.len() as int)) == hex_decode(hex@),
        decreases hex.len() - i,
    {
        let ghost rest = hex@.subrange(i as int, hex@.len() as int);
        if i + 1 < hex.len() {
            let v = hex_digit(hex[i]) * 16 + hex_digit(hex[i + 1]);
            out.push(v);
            proof {
                assert(rest.subrange(2, rest.len() as int) == hex@.subrange(i + 2, hex@.len() as int));
                assert(hex_decode(rest) == seq![v] + hex_decode(rest.subrange(2, rest.len() as int)));
            }
            i += 2;
        } else {
            let v = hex_digit(hex[i]) * 16;
            out.push(v);
            proof {
                assert(rest.len() == 1);
                assert(hex_decode(rest) == seq![v]);
                assert(hex_decode(hex@.subrange(i + 1, hex@.len() as int)) == Seq::<u8>::empty());
            }
            i += 1;
        }
    }
    proof {
        assert(hex@.subrange(hex@.len() as int, hex@.len() as int) == Seq::<u8>::empty());
    }
    out
}

/// `true` if the slice contains an ASCII digit.
pub fn any_digit(s: &[u8]) -> (r: bool)
    ensures r == contains_digit(s@),
{
    let mut i: usize = 0;
    while i < s.len()
        invariant i <= s.len(), forall|k: int| 0 <= k < i ==> !is_digit(s@[k]),
        decreases s.len() - i,
    {
        if digit_byte(s[i]) {
            return true;
        }
        i += 1;
    }
    false
}

/// Parses number text without a dot (optional sign, digits) as an `i64`;
/// `None` when it holds no digit or does not fit.
pub fn parse_i64_text(t: &[u8]) -> (r: Option<i64>)
    requires forall|k: int| 0 <= k < t@.len() ==> is_digit(t@[k]) || (k == 0 && (t@[0] == 0x2b || t@[0] == 0x2d)),
    ensures
        match r {
            Some(v) => contains_digit(t@) && v as int == integer_text_value(t@),
            None => !(contains_digit(t@) && i64::MIN <= integer_text_value(t@) <= i64::MAX),
        },
{
    let neg = t.len() > 0 && t[0] == 0x2d;
    let start: usize = if t.len() > 0 && (t[0] == 0x2d || t[0] == 0x2b) { 1 } else { 0 };
    let ghost ds = t@.subrange(start as int, t@.len() as int);
    if start >= t.len() {
        proof {
            if contains_digit(t@) {
                let k = choose|k: int| 0 <= k < t@.len() && is_digit(t@[k]);
                assert(false);
            }
        }
        return None;
    }
    let mut mag: u128 = 0;
    let mut i: usize = start;
    while i < t.len()
        invariant
            start <= i <= t.len(),
            start < t.len(),
            mag as int == digits_value(t@.subrange(start as int, i as int)),
            mag <= 0x8000_0000_0000_0000u128,
            forall|k: int| start <= k < t@.len() ==> is_digit(t@[k]),
            start == (if t@.len() > 0 && (t@[0] == 0x2d || t@[0] == 0x2b) { 1int } else { 0int }),
            neg == (t@.len() > 0 && t@[0] == 0x2d),
        decreases t.len() - i,
    {
        let dgt = (t[i] - 0x30) as u128;
        proof {
            assert(t@.subrange(start as int, i + 1).drop_last() == t@.subrange(start as int, i as int));
        }
        mag = mag * 10 + dgt;
        i += 1;
        if mag > 0x8000_0000_0000_0000u128 {
            proof {
                let u = t@.subrange(start as int, t@.len() as int);
                assert(u.subrange(0, i - start) == t@.subrange(start as int, i as int));
                lemma_digits_value_mono(u, i - start);
                assert(start == 1 && t@[0] == 0x2d ==> integer_text_value(t@) == -digits_value(u));
                assert(t@[0] != 0x2d && start == 1 ==> integer_text_value(t@) == digits_value(u));
                assert(start == 0 ==> u == t@);
            }
            return None;
        }
    }
    proof {
        assert(t@.subrange(start as int, t@.len() as int) == ds);
        assert(is_digit(t@[start as int]));
        assert(contains_digit(t@));
        if start == 0 {
            assert(ds == t@);
        }
    }
    if neg {
        Some((0i128 - mag as i128) as i64)
    } else if mag > 0x7fff_ffff_ffff_ffffu128 {
        None
    } else {
        Some(mag as i64)
    }
}

pub proof fn lemma_digits_value_mono(s: Seq<u8>, n: int)
    requires 0 <= n <= s.len(), forall|k: int| 0 <= k < s.len() ==> is_digit(s[k]),
    ensures digits_value(s.subrange(0, n)) <= digits_value(s),
    decreases s.len() - n,
{
    if n < s.len() {
        lemma_digits_value_nonneg(s.subrange(0, n + 1));
        assert(s.subrange(0, n + 1).drop_last() == s.subrange(0, n));
        if n + 1 == s.len() {
            assert(s.subrange(0, n + 1) == s);
        } else {
            lemma_digits_value_mono(s, n + 1);
        }
        lemma_digits_value_nonneg(s.subrange(0, n));
    } else {
        assert(s.subrange(0, n) == s);
    }
}

pub proof fn lemma_digits_value_nonneg(s: Seq<u8>)
    requires forall|k: int| 0 <= k < s.len() ==> is_digit(s[k]),
    ensures digits_value(s) >= 0,
    decreases s.len(),
{
    if s.len() > 0 {
        lemma_digits_value_nonneg(s.drop_last());
    }
}

/// The upper-case hexadecimal digit for `d < 16`.
pub open spec fn hex_digit_char(d: int) -> char {
    if d < 10 { (d + 48) as char } else { (d + 55) as char }
}

/// `b` as two upper-case hexadecimal digits.
pub open spec fn hex_byte_text(b: u8) -> Seq<char> {
    seq![hex_digit_char((b / 16) as int), hex_digit_char((b % 16) as int)]
}

pub(crate) fn push_hex_byte(s: &mut String, b: u8)
    ensures final(s)@ == old(s)@ + hex_byte_text(b),
{
    let hi: u32 = if b / 16 < 10 { (b / 16) as u32 + 48 } else { (b / 16) as u32 + 55 };
    let lo: u32 = if b % 16 < 10 { (b % 16) as u32 + 48 } else { (b % 16) as u32 + 55 };
    match char_from_u32(hi) {
        Some(c) => push_char(s, c),
        None => {}
    }
    match char_from_u32(lo) {
        Some(c) => push_char(s, c),
        None => {}
    }
    proof { assert(final(s)@ =~= old(s)@ + hex_byte_text(b)); }
}

impl LexError {
    /// A byte that starts no token: its hex code and the character it is.
    pub fn unexpected(byte: u8, offset: usize) -> (r: LexError)
        ensures
            r.offset == offset,
            r.message@ == "unexpected byte 0x"@ + hex_byte_text(byte) + " ('"@ + seq![byte as char] + "')"@,
    {
        let mut m = String::new();
        push_str(&mut m, "unexpected byte 0x");
        push_hex_byte(&mut m, byte);
        push_str(&mut m, " ('");
        match char_from_u32(byte as u32) {
            Some(c) => push_char(&mut m, c),
            None => {}
        }
        push_str(&mut m, "')");
        LexError { message: m, offset }
    }

    /// Input that ends inside a construct: "unterminated" and what it is.
    pub fn unterminated(what: &str, offset: usize) -> (r: LexError)
        ensures r.offset == offset, r.message@ == "unterminated "@ + what@,
    {
        let mut m = String::new();
        push_str(&mut m, "unterminated ");
        push_str(&mut m, what);
        LexError { message: m, offset }
    }

    /// A byte that is not a hex digit where one is needed.
    pub fn invalid_hex(byte: u8, offset: usize) -> (r: LexError)
        ensures r.offset == offset, r.message@ == "invalid hex digit 0x"@ + hex_byte_text(byte),
    {
        let mut m = String::new();
        push_str(&mut m, "invalid hex digit 0x");
        push_hex_byte(&mut m, byte);
        LexError { message: m, offset }
    }

    /// A number literal that cannot be read.
    pub fn invalid_number(offset: usize) -> (r: LexError)
        ensures r.offset == offset, r.message@ == "invalid number literal"@,
    {
        LexError { message: owned_text("invalid number literal"), offset }
    }
}

} // verus!

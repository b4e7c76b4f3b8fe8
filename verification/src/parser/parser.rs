//! PDF object parser: reads tokens from the lexer and builds COS objects,
//! including arrays, dictionaries, streams and indirect references.
//!
//! The behaviour is given by the spec function [`parse_value`]: the outcome of
//! parsing one object at a byte position.

use vstd::prelude::*;
use crate::cos::{CosValue, CosObject, CosDictionary, CosStream, ObjectId, view_objs, dict_insert};
use crate::bytes::bytes_eq;
use crate::text::push_str;
use super::lexer::{LexError, Lexer, Token, TokenV, LexOut, lex_at, lex_token};

verus! {

/// Parser error with context.
#[derive(Debug, Clone, PartialEq, Eq)]
pub struct ParseError {
    pub message: String,
    pub offset: usize,
}

impl ParseError {
    pub fn new(message: &str, offset: usize) -> (r: ParseError)
        ensures r.offset == offset, r.message@ == message@,
    {
        ParseError { message: message.to_owned(), offset }
    }

    /// Something else stood where `what` was expected.
    pub fn expected(what: &str, offset: usize) -> (r: ParseError)
        ensures r.offset == offset, r.message@ == "expected "@ + what@,
    {
        let mut m = String::new();
        push_str(&mut m, "expected ");
        push_str(&mut m, what);
        ParseError { message: m, offset }
    }

    /// The input ended while `what` was being read.
    pub fn unexpected_eof(what: &str, offset: usize) -> (r: ParseError)
        ensures r.offset == offset, r.message@ == "unexpected EOF while parsing "@ + what@,
    {
        let mut m = String::new();
        push_str(&mut m, "unexpected EOF while parsing ");
        push_str(&mut m, what);
        ParseError { message: m, offset }
    }
}

fn from_lex(e: LexError) -> (r: ParseError)
    ensures r.offset == e.offset,
{
    ParseError { message: e.message, offset: e.offset }
}

pub open spec fn kw_null() -> Seq<u8> { seq![0x6eu8, 0x75, 0x6c, 0x6c] }
pub open spec fn kw_r() -> Seq<u8> { seq![0x52u8] }
pub open spec fn kw_stream() -> Seq<u8> { seq![0x73u8, 0x74, 0x72, 0x65, 0x61, 0x6d] }
pub open spec fn kw_obj() -> Seq<u8> { seq![0x6fu8, 0x62, 0x6a] }
pub open spec fn kw_endobj() -> Seq<u8> { seq![0x65u8, 0x6e, 0x64, 0x6f, 0x62, 0x6a] }

/// Outcome of parsing one object.
pub enum ParseOut {
    /// An object ending at the given position.
    Obj(CosValue, int),
    /// No object: end of input or a token that is not a value; the cursor
    /// stays at the given position.
    NoObj(int),
    /// A parse error at the given offset.
    Bad(int),
}

/// Outcome of looking for `<gen> R` after an integer.
pub enum RefOut {
    Yes(int, int),
    No,
    Bad(int),
}

/// Outcome of reading dictionary entries.
pub enum DictOut {
    Done(Seq<(Seq<u8>, CosValue)>, int),
    Bad(int),
}

pub open spec fn try_ref(data: Seq<u8>, e: int) -> RefOut {
    match lex_at(data, e) {
        LexOut::Bad(o) => RefOut::Bad(o),
        LexOut::Eof(_) => RefOut::No,
        LexOut::Tok(TokenV::Integer(g), e2) => match lex_at(data, e2) {
            LexOut::Bad(o) => RefOut::Bad(o),
            LexOut::Tok(TokenV::Keyword(k), e3) => if k == kw_r() { RefOut::Yes(g, e3) } else { RefOut::No },
            _ => RefOut::No,
        },
        LexOut::Tok(_, _) => RefOut::No,
    }
}

/// Offset reported when a dictionary value is missing at `e`.
pub open spec fn missing_value_offset(data: Seq<u8>, e: int) -> int {
    match lex_at(data, e) {
        LexOut::Eof(x) => x,
        LexOut::Tok(_, x) => x,
        LexOut::Bad(o) => o,
    }
}

/// A dictionary ending at `e`, possibly followed by the `stream` keyword.
pub open spec fn dict_or_stream(data: Seq<u8>, entries: Seq<(Seq<u8>, CosValue)>, e: int) -> ParseOut {
    match lex_at(data, e) {
        LexOut::Bad(o) => ParseOut::Bad(o),
        LexOut::Tok(TokenV::Keyword(k), e3) =>
            if k == kw_stream() { ParseOut::Obj(CosValue::Stream(entries, Seq::empty()), e3) }
            else { ParseOut::Obj(CosValue::Dict(entries), e) },
        _ => ParseOut::Obj(CosValue::Dict(entries), e),
    }
}

/// Parsing one object at `p`.
pub open spec fn parse_value(data: Seq<u8>, p: int) -> ParseOut
    decreases data.len() - p, 0int,
{
    match lex_at(data, p) {
        LexOut::Bad(o) => ParseOut::Bad(o),
        LexOut::Eof(e) => ParseOut::NoObj(e),
        LexOut::Tok(t, e) => if e <= p || p < 0 || e > data.len() { ParseOut::Bad(p) } else {
            match t {
                TokenV::Bool(b) => ParseOut::Obj(CosValue::Bool(b), e),
                TokenV::Integer(n) => match try_ref(data, e) {
                    RefOut::Bad(o) => ParseOut::Bad(o),
                    RefOut::Yes(g, e3) => ParseOut::Obj(CosValue::Ref(n as u32, g as u16), e3),
                    RefOut::No => ParseOut::Obj(CosValue::Integer(n), e),
                },
                TokenV::Real(x) => ParseOut::Obj(CosValue::Real(x), e),
                TokenV::LiteralString(s) => ParseOut::Obj(CosValue::Str(s), e),
                TokenV::HexString(s) => ParseOut::Obj(CosValue::Str(s), e),
                TokenV::Name(n) => ParseOut::Obj(CosValue::Name(n), e),
                TokenV::Keyword(k) => if k == kw_null() { ParseOut::Obj(CosValue::Null, e) } else { ParseOut::NoObj(p) },
                TokenV::ArrayStart => parse_array(data, e, Seq::empty()),
                TokenV::DictStart => match parse_dict(data, e, Seq::empty()) {
                    DictOut::Bad(o) => ParseOut::Bad(o),
                    DictOut::Done(entries, e2) => dict_or_stream(data, entries, e2),
                },
                _ => ParseOut::NoObj(p),
            }
        },
    }
}

/// Parsing array items from `p`, with `acc` the items read so far.
pub open spec fn parse_array(data: Seq<u8>, p: int, acc: Seq<CosValue>) -> ParseOut
    decreases data.len() - p, 1int,
{
    match lex_at(data, p) {
        LexOut::Bad(o) => ParseOut::Bad(o),
        LexOut::Eof(e) => ParseOut::Bad(e),
        LexOut::Tok(TokenV::ArrayEnd, e) => ParseOut::Obj(CosValue::Array(acc), e),
        LexOut::Tok(_, e) => if e <= p || p < 0 || e > data.len() { ParseOut::Bad(p) } else {
            match parse_value(data, p) {
                ParseOut::Bad(o) => ParseOut::Bad(o),
                ParseOut::Obj(v, e2) => if p < e2 <= data.len() { parse_array(data, e2, acc.push(v)) } else { ParseOut::Bad(p) },
                ParseOut::NoObj(_) => parse_array(data, e, acc),
            }
        },
    }
}

/// Reading dictionary entries from `p`, with `acc` the entries read so far.
pub open spec fn parse_dict(data: Seq<u8>, p: int, acc: Seq<(Seq<u8>, CosValue)>) -> DictOut
    decreases data.len() - p, 1int,
{
    match lex_at(data, p) {
        LexOut::Bad(o) => DictOut::Bad(o),
        LexOut::Eof(e) => DictOut::Bad(e),
        LexOut::Tok(TokenV::DictEnd, e) => DictOut::Done(acc, e),
        LexOut::Tok(TokenV::Name(k), e) => if e <= p || p < 0 || e > data.len() { DictOut::Bad(p) } else {
            match parse_value(data, e) {
                ParseOut::Bad(o) => DictOut::Bad(o),
                ParseOut::NoObj(_) => DictOut::Bad(missing_value_offset(data, e)),
                ParseOut::Obj(v, e2) => if p < e2 <= data.len() { parse_dict(data, e2, dict_insert(acc, k, v)) } else { DictOut::Bad(p) },
            }
        },
        LexOut::Tok(_, _) => DictOut::Bad(p),
    }
}

/// Outcome of parsing an indirect object definition.
pub enum IndirectOut {
    Def(u32, u16, CosValue, int),
    NoDef(int),
    Bad(int),
}

pub open spec fn after_value(data: Seq<u8>, n: int, g: int, v: CosValue, q: int) -> IndirectOut {
    match lex_at(data, q) {
        LexOut::Bad(o) => IndirectOut::Bad(o),
        LexOut::Tok(TokenV::Keyword(k), e5) =>
            if k == kw_endobj() { IndirectOut::Def(n as u32, g as u16, v, e5) }
            else { IndirectOut::Def(n as u32, g as u16, v, q) },
        _ => IndirectOut::Def(n as u32, g as u16, v, q),
    }
}

/// Parsing `N G obj <value> [endobj]` at `p`.
pub open spec fn parse_indirect(data: Seq<u8>, p: int) -> IndirectOut {
    match lex_at(data, p) {
        LexOut::Bad(o) => IndirectOut::Bad(o),
        LexOut::Eof(e) => IndirectOut::NoDef(e),
        LexOut::Tok(TokenV::Integer(n), e1) => match lex_at(data, e1) {
            LexOut::Bad(o) => IndirectOut::Bad(o),
            LexOut::Eof(x) => IndirectOut::Bad(x),
            LexOut::Tok(TokenV::Integer(g), e2) => match lex_at(data, e2) {
                LexOut::Bad(o) => IndirectOut::Bad(o),
                LexOut::Eof(x) => IndirectOut::Bad(x),
                LexOut::Tok(TokenV::Keyword(k), e3) => if k == kw_obj() {
                    match parse_value(data, e3) {
                        ParseOut::Bad(o) => IndirectOut::Bad(o),
                        ParseOut::NoObj(q) => after_value(data, n, g, CosValue::Null, q),
                        ParseOut::Obj(v, e4) => after_value(data, n, g, v, e4),
                    }
                } else {
                    IndirectOut::Bad(e2)
                },
                LexOut::Tok(_, _) => IndirectOut::Bad(e2),
            },
            LexOut::Tok(_, x) => IndirectOut::Bad(x),
        },
        LexOut::Tok(_, _) => IndirectOut::NoDef(p),
    }
}

/// `true` if `t` is the keyword spelled `k`.
fn token_is(t: &Token, k: &[u8]) -> (r: bool)
    ensures r == (t@ == TokenV::Keyword(k@)),
{
    t.is_keyword(k)
}

/// After an integer ending at `e`: `Some((generation, end))` when a
/// generation number and `R` follow, making it a reference.
fn try_indirect_reference(data: &[u8], e: usize) -> (r: Result<Option<(i64, usize)>, ParseError>)
    requires e <= data@.len(),
    ensures
        match try_ref(data@, e as int) {
            RefOut::Bad(o) => r is Err && r->Err_0.offset == o,
            RefOut::No => r == Ok::<Option<(i64, usize)>, ParseError>(None),
            RefOut::Yes(g, e3) => r is Ok && r->Ok_0 is Some && r->Ok_0->Some_0.0 as int == g
                && r->Ok_0->Some_0.1 as int == e3,
        },
        r is Ok && r->Ok_0 is Some ==> e < r->Ok_0->Some_0.1 <= data@.len(),
{
    match lex_token(data, e) {
        Err(x) => Err(from_lex(x)),
        Ok((None, _)) => Ok(None),
        Ok((Some(Token::Integer(g)), e2)) => {
            match lex_token(data, e2) {
                Err(x) => Err(from_lex(x)),
                Ok((Some(t), e3)) => {
                    let r: [u8; 1] = [0x52];
                    proof { assert(r@ =~= kw_r()); }
                    if token_is(&t, r.as_slice()) {
                        Ok(Some((g, e3)))
                    } else {
                        Ok(None)
                    }
                }
                Ok((None, _)) => Ok(None),
            }
        }
        Ok((Some(_), _)) => Ok(None),
    }
}

/// Parses one object at `p`: `(None, q)` when there is none (the cursor
/// then stays at `q`), else the object and the position after it.
pub fn parse_value_at(data: &[u8], p: usize) -> (r: Result<(Option<CosObject>, usize), ParseError>)
    requires p <= data@.len(),
    ensures
        match parse_value(data@, p as int) {
            ParseOut::Bad(o) => r is Err && r->Err_0.offset == o,
            ParseOut::NoObj(q) => r is Ok && r->Ok_0.0 is None && r->Ok_0.1 == q,
            ParseOut::Obj(v, e) => r is Ok && r->Ok_0.0 is Some && r->Ok_0.0->Some_0@ == v && r->Ok_0.1 == e,
        },
        r is Ok ==> r->Ok_0.1 <= data@.len(),
        r is Ok && r->Ok_0.0 is Some ==> p < r->Ok_0.1,
    decreases data@.len() - p, 0int,
{
    let (tok, e) = match lex_token(data, p) {
        Err(x) => return Err(from_lex(x)),
        Ok((None, e)) => return Ok((None, e)),
        Ok((Some(t), e)) => (t, e),
    };
    match tok {
        Token::Bool(b) => Ok((Some(CosObject::Bool(b)), e)),
        Token::Integer(n) => {
            match try_indirect_reference(data, e) {
                Err(x) => Err(x),
                Ok(Some((g, e3))) => Ok((Some(CosObject::Reference(ObjectId::new(n as u32, g as u16))), e3)),
                Ok(None) => Ok((Some(CosObject::Integer(n)), e)),
            }
        }
        Token::Real(x) => Ok((Some(CosObject::Real(x)), e)),
        Token::LiteralString(s) => Ok((Some(CosObject::String(s)), e)),
        Token::HexString(s) => Ok((Some(CosObject::String(s)), e)),
        Token::Name(n) => Ok((Some(CosObject::Name(n)), e)),
        Token::Keyword(k) => {
            let null: [u8; 4] = [0x6e, 0x75, 0x6c, 0x6c];
            proof { assert(null@ =~= kw_null()); }
            if bytes_eq(k.as_slice(), null.as_slice()) {
                Ok((Some(CosObject::Null), e))
            } else {
                Ok((None, p))
            }
        }
        Token::ArrayStart => {
            match parse_array_at(data, e) {
                Err(x) => Err(x),
                Ok((v, e2)) => Ok((Some(v), e2)),
            }
        }
        Token::DictStart => {
            match parse_dictionary_entries(data, e) {
                Err(x) => Err(x),
                Ok((d, e2)) => {
                    match lex_token(data, e2) {
                        Err(x) => Err(from_lex(x)),
                        Ok((Some(t), e3)) => {
                            let kw: [u8; 6] = [0x73, 0x74, 0x72, 0x65, 0x61, 0x6d];
                            proof { assert(kw@ =~= kw_stream()); }
                            if token_is(&t, kw.as_slice()) {
                                let s = CosStream { dictionary: d, data: Vec::new() };
                                proof { assert(s.data@ =~= Seq::<u8>::empty()); }
                                Ok((Some(CosObject::Stream(s)), e3))
                            } else {
                                Ok((Some(CosObject::Dictionary(d)), e2))
                            }
                        }
                        Ok((None, _)) => Ok((Some(CosObject::Dictionary(d)), e2)),
                    }
                }
            }
        }
        _ => Ok((None, p)),
    }
}

/// Parses array items after `[` until the matching `]`.
fn parse_array_at(data: &[u8], p0: usize) -> (r: Result<(CosObject, usize), ParseError>)
    requires p0 <= data@.len(),
    ensures
        match parse_array(data@, p0 as int, Seq::empty()) {
            ParseOut::Bad(o) => r is Err && r->Err_0.offset == o,
            ParseOut::NoObj(_) => false,
            ParseOut::Obj(v, e) => r is Ok && r->Ok_0.0@ == v && r->Ok_0.1 == e,
        },
        r is Ok ==> p0 < r->Ok_0.1 <= data@.len(),
    decreases data@.len() - p0, 1int,
{
    let mut items: Vec<CosObject> = Vec::new();
    let mut p = p0;
    loop
        invariant
            p0 <= p <= data@.len(),
            parse_array(data@, p as int, view_objs(items@)) == parse_array(data@, p0 as int, Seq::empty()),
        decreases data@.len() - p,
    {
        let ghost acc = view_objs(items@);
        let (tok, e) = match lex_token(data, p) {
            Err(x) => return Err(from_lex(x)),
            Ok((None, e)) => return Err(ParseError::unexpected_eof("array", e)),
            Ok((Some(t), e)) => (t, e),
        };
        if let Token::ArrayEnd = tok {
            return Ok((CosObject::Array(items), e));
        }
        match parse_value_at(data, p) {
            Err(x) => return Err(x),
            Ok((Some(v), e2)) => {
                let ghost vv = v@;
                let ghost before = items@;
                items.push(v);
                proof {
                    assert(items@.drop_last() =~= before);
                    assert(view_objs(items@) == acc.push(vv));
                }
                p = e2;
            }
            Ok((None, _)) => {
                p = e;
            }
        }
    }
}

/// Reads dictionary entries after `<<` until `>>`.
fn parse_dictionary_entries(data: &[u8], p0: usize) -> (r: Result<(CosDictionary, usize), ParseError>)
    requires p0 <= data@.len(),
    ensures
        match parse_dict(data@, p0 as int, Seq::empty()) {
            DictOut::Bad(o) => r is Err && r->Err_0.offset == o,
            DictOut::Done(entries, e) => r is Ok && r->Ok_0.0@ == entries && r->Ok_0.1 == e,
        },
        r is Ok ==> p0 < r->Ok_0.1 <= data@.len(),
    decreases data@.len() - p0, 1int,
{
    let mut dict = CosDictionary::new();
    let mut p = p0;
    loop
        invariant
            p0 <= p <= data@.len(),
            parse_dict(data@, p as int, dict@) == parse_dict(data@, p0 as int, Seq::empty()),
        decreases data@.len() - p,
    {
        let key_pos = p;
        let (tok, e) = match lex_token(data, p) {
            Err(x) => return Err(from_lex(x)),
            Ok((None, e)) => return Err(ParseError::unexpected_eof("dictionary", e)),
            Ok((Some(t), e)) => (t, e),
        };
        match tok {
            Token::DictEnd => {
                return Ok((dict, e));
            }
            Token::Name(key) => {
                match parse_value_at(data, e) {
                    Err(x) => return Err(x),
                    Ok((Some(v), e2)) => {
                        dict.insert(key, v);
                        p = e2;
                    }
                    Ok((None, _)) => {
                        let off = match lex_token(data, e) {
                            Ok((_, x)) => x,
                            Err(x) => x.offset,
                        };
                        return Err(ParseError::unexpected_eof("dictionary value", off));
                    }
                }
            }
            _ => {
                return Err(ParseError::expected("name key", key_pos));
            }
        }
    }
}

/// PDF object parser over a byte slice.
pub struct Parser<'a> {
    pub lexer: Lexer<'a>,
}

impl<'a> Parser<'a> {
    /// Creates a new parser over the given byte slice.
    pub fn new(data: &'a [u8]) -> (r: Self)
        ensures r.lexer.data@ == data@, r.lexer.pos == 0,
    {
        Parser { lexer: Lexer::new(data) }
    }

    /// Creates a parser from an existing lexer.
    pub fn from_lexer(lexer: Lexer<'a>) -> (r: Self)
        ensures r.lexer == lexer,
    {
        Parser { lexer }
    }

    /// Returns the current byte offset (the start of the next unread token).
    pub fn position(&self) -> (r: usize)
        ensures r == self.lexer.pos,
    {
        self.lexer.pos
    }

    /// Provides mutable access to the underlying lexer.
    pub fn lexer_mut(&mut self) -> (r: &mut Lexer<'a>)
        ensures *r == old(self).lexer, final(self).lexer == *final(r),
    {
        &mut self.lexer
    }

    /// Parses one COS object from the current position, recognising
    /// indirect references `N G R`.
    pub fn parse_object(&mut self) -> (r: Result<Option<CosObject>, ParseError>)
        requires old(self).lexer.pos <= old(self).lexer.data@.len(),
        ensures
            final(self).lexer.data@ == old(self).lexer.data@,
            final(self).lexer.pos <= final(self).lexer.data@.len(),
            match parse_value(old(self).lexer.data@, old(self).lexer.pos as int) {
                ParseOut::Bad(o) => r is Err && r->Err_0.offset == o,
                ParseOut::NoObj(q) => r == Ok::<Option<CosObject>, ParseError>(None) && final(self).lexer.pos == q,
                ParseOut::Obj(v, e) => r is Ok && r->Ok_0 is Some && r->Ok_0->Some_0@ == v
                    && final(self).lexer.pos == e,
            },
    {
        match parse_value_at(self.lexer.data, self.lexer.pos) {
            Err(x) => Err(x),
            Ok((obj, e)) => {
                self.lexer.pos = e;
                Ok(obj)
            }
        }
    }

    /// Parses an indirect object definition `N G obj <value> endobj` (the
    /// `endobj` is optional). `None` when the next token is not an integer.
    #[verifier::spinoff_prover]
    #[verifier::rlimit(40)]
    pub fn parse_indirect_object(&mut self) -> (r: Result<Option<(ObjectId, CosObject)>, ParseError>)
        requires old(self).lexer.pos <= old(self).lexer.data@.len(),
        ensures
            final(self).lexer.data@ == old(self).lexer.data@,
            final(self).lexer.pos <= final(self).lexer.data@.len(),
            match parse_indirect(old(self).lexer.data@, old(self).lexer.pos as int) {
                IndirectOut::Bad(o) => r is Err && r->Err_0.offset == o,
                IndirectOut::NoDef(q) => r is Ok && r->Ok_0 is None && final(self).lexer.pos == q,
                IndirectOut::Def(n, g, v, e) => r is Ok && r->Ok_0 is Some
                    && r->Ok_0->Some_0.0 == ObjectId { object_number: n, generation: g }
                    && r->Ok_0->Some_0.1@ == v && final(self).lexer.pos == e,
            },
    {
        let data = self.lexer.data;
        let p = self.lexer.pos;
        let (t1, e1) = match lex_token(data, p) {
            Err(x) => return Err(from_lex(x)),
            Ok((None, e)) => {
                self.lexer.pos = e;
                return Ok(None);
            }
            Ok((Some(t), e)) => (t, e),
        };
        let obj_num = match t1 {
            Token::Integer(n) => n,
            _ => return Ok(None),
        };
        let (t2, e2) = match lex_token(data, e1) {
            Err(x) => return Err(from_lex(x)),
            Ok((None, e)) => return Err(ParseError::unexpected_eof("indirect object generation", e)),
            Ok((Some(t), e)) => (t, e),
        };
        let generation = match t2 {
            Token::Integer(g) => g,
            _ => return Err(ParseError::expected("generation number", e2)),
        };
        let (t3, e3) = match lex_token(data, e2) {
            Err(x) => return Err(from_lex(x)),
            Ok((None, e)) => return Err(ParseError::unexpected_eof("obj keyword", e)),
            Ok((Some(t), e)) => (t, e),
        };
        let obj: [u8; 3] = [0x6f, 0x62, 0x6a];
        proof { assert(obj@ =~= kw_obj()); }
        if !token_is(&t3, obj.as_slice()) {
            return Err(ParseError::expected("'obj' keyword", e2));
        }
        let id = ObjectId::new(obj_num as u32, generation as u16);
        let (value, q) = match parse_value_at(data, e3) {
            Err(x) => return Err(x),
            Ok((Some(v), e4)) => (v, e4),
            Ok((None, q)) => (CosObject::Null, q),
        };
        let endobj: [u8; 6] = [0x65, 0x6e, 0x64, 0x6f, 0x62, 0x6a];
        proof { assert(endobj@ =~= kw_endobj()); }
        match lex_token(data, q) {
            Err(x) => Err(from_lex(x)),
            Ok((Some(t), e5)) => {
                if token_is(&t, endobj.as_slice()) {
                    self.lexer.pos = e5;
                } else {
                    self.lexer.pos = q;
                }
                Ok(Some((id, value)))
            }
            Ok((None, _)) => {
                self.lexer.pos = q;
                Ok(Some((id, value)))
            }
        }
    }
}

} // verus!

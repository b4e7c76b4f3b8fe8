//! ToUnicode CMaps: the `bfchar` and `bfrange` sections that map character
//! codes to Unicode text.

use vstd::prelude::*;
use crate::font::hex::{parse_radix16, radix16};
use crate::text::{char_from_u32, chars_eq_str, is_scalar, lossy_chars, push_char, string_from_chars, utf8_lossy};
use vstd::string::StringSliceAdditionalSpecFns;

verus! {

// ---------------------------------------------------------------------------
// Tokens
// ---------------------------------------------------------------------------

pub open spec fn is_cmap_ws(c: char) -> bool {
    c == ' ' || c == '\t' || c == '\n' || c == '\r'
}

/// Characters that end a bare word.
pub open spec fn is_cmap_stop(c: char) -> bool {
    is_cmap_ws(c) || c == '<' || c == '>' || c == '[' || c == ']' || c == '(' || c == ')'
        || c == '\'' || c == '%'
}

/// Index of the first `c` at or after `i`, or the end.
pub open spec fn find_char(cs: Seq<char>, i: int, c: char) -> int
    decreases cs.len() - i,
{
    if i >= cs.len() {
        cs.len() as int
    } else if cs[i] == c {
        i
    } else {
        find_char(cs, i + 1, c)
    }
}

/// End of a bare word starting at `i`.
pub open spec fn word_end(cs: Seq<char>, i: int) -> int
    decreases cs.len() - i,
{
    if i >= cs.len() {
        cs.len() as int
    } else if is_cmap_stop(cs[i]) {
        i
    } else {
        word_end(cs, i + 1)
    }
}

/// End (just past the matching `close`) of a bracketed group scanned from
/// `i` at nesting depth `depth`, or the end of the text.
pub open spec fn group_end(cs: Seq<char>, i: int, depth: int, open: char, close: char) -> int
    decreases cs.len() - i,
{
    if i >= cs.len() {
        cs.len() as int
    } else {
        let d = if cs[i] == open { depth + 1 } else if cs[i] == close { depth - 1 } else { depth };
        if d == 0 { i + 1 } else { group_end(cs, i + 1, d, open, close) }
    }
}

pub proof fn lemma_find_char(cs: Seq<char>, i: int, c: char)
    requires 0 <= i,
    ensures
        i <= cs.len() ==> i <= find_char(cs, i, c) <= cs.len(),
        i > cs.len() ==> find_char(cs, i, c) == cs.len(),
    decreases cs.len() - i,
{
    if i < cs.len() && cs[i] != c {
        lemma_find_char(cs, i + 1, c);
    }
}

pub proof fn lemma_word_end(cs: Seq<char>, i: int)
    requires 0 <= i <= cs.len(),
    ensures i <= word_end(cs, i) <= cs.len(),
    decreases cs.len() - i,
{
    if i < cs.len() && !is_cmap_stop(cs[i]) {
        lemma_word_end(cs, i + 1);
    }
}

pub proof fn lemma_group_end(cs: Seq<char>, i: int, depth: int, open: char, close: char)
    requires 0 <= i < cs.len(),
    ensures i < group_end(cs, i, depth, open, close) <= cs.len(),
    decreases cs.len() - i,
{
    let d = if cs[i] == open { depth + 1 } else if cs[i] == close { depth - 1 } else { depth };
    if d != 0 {
        if i + 1 < cs.len() {
            lemma_group_end(cs, i + 1, d, open, close);
        } else {
            assert(group_end(cs, i + 1, d, open, close) == cs.len());
        }
    }
}

/// The tokens of CMap text from position `i`: whitespace and `%` comments
/// are skipped; `<..>` is one token; `[..]` and `(..)` groups are one token
/// each; a bare word runs to the next stop character. A stray `>`, `]`, `)`
/// or `'` is skipped.
pub open spec fn cmap_tokens(cs: Seq<char>, i: int) -> Seq<Seq<char>>
    decreases cs.len() - i,
{
    if i < 0 || i >= cs.len() {
        Seq::empty()
    } else {
        let c = cs[i];
        if is_cmap_ws(c) {
            cmap_tokens(cs, i + 1)
        } else if c == '%' {
            proof { lemma_find_char(cs, i + 1, '\n'); }
            cmap_tokens(cs, find_char(cs, i + 1, '\n'))
        } else if c == '<' {
            proof { lemma_find_char(cs, i + 1, '>'); }
            let j = find_char(cs, i + 1, '>');
            let tok = seq!['<'] + cs.subrange(i + 1, j) + seq!['>'];
            seq![tok] + cmap_tokens(cs, if j < cs.len() { j + 1 } else { j })
        } else if c == '[' {
            proof { lemma_group_end(cs, i, 0, '[', ']'); }
            let j = group_end(cs, i, 0, '[', ']');
            seq![cs.subrange(i, j)] + cmap_tokens(cs, j)
        } else if c == '(' {
            proof { lemma_group_end(cs, i, 0, '(', ')'); }
            let j = group_end(cs, i, 0, '(', ')');
            seq![cs.subrange(i, j)] + cmap_tokens(cs, j)
        } else if is_cmap_stop(c) {
            cmap_tokens(cs, i + 1)
        } else {
            proof { lemma_word_end(cs, i + 1); }
            let j = word_end(cs, i + 1);
            seq![cs.subrange(i, j)] + cmap_tokens(cs, j)
        }
    }
}

pub open spec fn tokens_view(v: Seq<Vec<char>>) -> Seq<Seq<char>> {
    Seq::new(v.len(), |k: int| v[k]@)
}

fn copy_chars(cs: &Vec<char>, a: usize, b: usize) -> (r: Vec<char>)
    requires a <= b <= cs@.len(),
    ensures r@ == cs@.subrange(a as int, b as int),
{
    let mut r: Vec<char> = Vec::new();
    let mut k: usize = a;
    while k < b
        invariant a <= k <= b, b <= cs@.len(), r@ == cs@.subrange(a as int, k as int),
        decreases b - k,
    {
        r.push(cs[k]);
        proof { assert(r@ =~= cs@.subrange(a as int, k + 1)); }
        k += 1;
    }
    r
}

fn scan_to(cs: &Vec<char>, from: usize, c: char) -> (j: usize)
    requires from <= cs@.len(),
    ensures j == find_char(cs@, from as int, c), from <= j <= cs@.len(),
{
    let mut j = from;
    while j < cs.len() && cs[j] != c
        invariant from <= j <= cs@.len(), find_char(cs@, from as int, c) == find_char(cs@, j as int, c),
        decreases cs.len() - j,
    {
        j += 1;
    }
    j
}

fn scan_word(cs: &Vec<char>, from: usize) -> (j: usize)
    requires from <= cs@.len(),
    ensures j == word_end(cs@, from as int), from <= j <= cs@.len(),
{
    let mut j = from;
    while j < cs.len() && !cmap_stop(cs[j])
        invariant from <= j <= cs@.len(), word_end(cs@, from as int) == word_end(cs@, j as int),
        decreases cs.len() - j,
    {
        j += 1;
    }
    j
}

fn scan_group(cs: &Vec<char>, from: usize, open: char, close: char) -> (j: usize)
    requires from < cs@.len(), cs@[from as int] == open, open != close,
    ensures j == group_end(cs@, from as int, 0, open, close), from < j <= cs@.len(),
{
    let n = cs.len();
    let mut depth: usize = 1;
    let mut j = from + 1;
    let mut end: usize = n;
    let mut go = true;
    while go && j < cs.len()
        invariant
            from < j <= cs@.len(),
            1 <= depth <= j - from,
            go ==> group_end(cs@, from as int, 0, open, close) == group_end(cs@, j as int, depth as int, open, close),
            !go ==> end == group_end(cs@, from as int, 0, open, close) && from < end <= cs@.len(),
            go ==> end == cs@.len(),
        decreases cs.len() - j + (if go { 1int } else { 0 }),
    {
        let c = cs[j];
        if c == open {
            depth = depth + 1;
            j += 1;
        } else if c == close {
            if depth == 1 {
                end = j + 1;
                go = false;
            } else {
                depth = depth - 1;
                j += 1;
            }
        } else {
            j += 1;
        }
    }
    end
}

fn cmap_ws(c: char) -> (r: bool)
    ensures r == is_cmap_ws(c),
{
    c == ' ' || c == '\t' || c == '\n' || c == '\r'
}

fn cmap_stop(c: char) -> (r: bool)
    ensures r == is_cmap_stop(c),
{
    cmap_ws(c) || c == '<' || c == '>' || c == '[' || c == ']' || c == '(' || c == ')' || c == '\''
        || c == '%'
}

/// Splits CMap text into its tokens.
pub fn tokenize_cmap(cs: &Vec<char>) -> (r: Vec<Vec<char>>)
    ensures tokens_view(r@) == cmap_tokens(cs@, 0),
{
    let mut toks: Vec<Vec<char>> = Vec::new();
    let mut i: usize = 0;
    proof { assert(tokens_view(toks@) + cmap_tokens(cs@, 0) =~= cmap_tokens(cs@, 0)); }
    while i < cs.len()
        invariant
            i <= cs@.len(),
            tokens_view(toks@) + cmap_tokens(cs@, i as int) == cmap_tokens(cs@, 0),
        decreases cs.len() - i,
    {
        let c = cs[i];
        let ghost before = tokens_view(toks@);
        if cmap_ws(c) {
            i += 1;
        } else if c == '%' {
            i = scan_to(cs, i + 1, '\n');
        } else if c == '<' {
            let j = scan_to(cs, i + 1, '>');
            let mut t: Vec<char> = Vec::new();
            t.push('<');
            let mid = copy_chars(cs, i + 1, j);
            let mut k: usize = 0;
            while k < mid.len()
                invariant k <= mid@.len(), t@ == seq!['<'] + mid@.take(k as int),
                decreases mid.len() - k,
            {
                t.push(mid[k]);
                proof { assert(t@ =~= seq!['<'] + mid@.take(k + 1)); }
                k += 1;
            }
            t.push('>');
            proof {
                assert(mid@.take(mid@.len() as int) =~= mid@);
                assert(t@ =~= seq!['<'] + cs@.subrange(i + 1, j as int) + seq!['>']);
            }
            toks.push(t);
            proof { assert(tokens_view(toks@) =~= before.push(seq!['<'] + cs@.subrange(i + 1, j as int) + seq!['>'])); }
            i = if j < cs.len() { j + 1 } else { j };
        } else if c == '[' {
            let j = scan_group(cs, i, '[', ']');
            toks.push(copy_chars(cs, i, j));
            proof { assert(tokens_view(toks@) =~= before.push(cs@.subrange(i as int, j as int))); }
            i = j;
        } else if c == '(' {
            let j = scan_group(cs, i, '(', ')');
            toks.push(copy_chars(cs, i, j));
            proof { assert(tokens_view(toks@) =~= before.push(cs@.subrange(i as int, j as int))); }
            i = j;
        } else if cmap_stop(c) {
            i += 1;
        } else {
            let j = scan_word(cs, i + 1);
            toks.push(copy_chars(cs, i, j));
            proof { assert(tokens_view(toks@) =~= before.push(cs@.subrange(i as int, j as int))); }
            i = j;
        }
        proof {
            let after = tokens_view(toks@);
            assert(after + cmap_tokens(cs@, i as int) =~= tokens_view(toks@) + cmap_tokens(cs@, i as int));
            if after.len() > before.len() {
                assert(before + (seq![after.last()] + cmap_tokens(cs@, i as int)) =~= after + cmap_tokens(cs@, i as int));
            } else {
                assert(after =~= before);
            }
        }
    }
    proof { assert(tokens_view(toks@) + cmap_tokens(cs@, i as int) =~= tokens_view(toks@)); }
    toks
}

// ---------------------------------------------------------------------------
// Hexadecimal tokens
// ---------------------------------------------------------------------------

pub open spec fn all_ascii_chars(cs: Seq<char>) -> bool {
    forall|k: int| 0 <= k < cs.len() ==> (cs[k] as u32) < 128
}

pub open spec fn ascii_bytes(cs: Seq<char>) -> Seq<u8> {
    Seq::new(cs.len(), |k: int| cs[k] as u8)
}

/// `u32::from_str_radix(text, 16)` on text given as characters.
pub open spec fn radix16_chars(cs: Seq<char>) -> Option<u32> {
    if all_ascii_chars(cs) { radix16(ascii_bytes(cs)) } else { None }
}

/// The bytes of hexadecimal text read two digits at a time (`None` at the
/// first pair that is not a number).
pub open spec fn hex_pairs(p: Seq<u8>) -> Option<Seq<u8>>
    decreases p.len(),
{
    if p.len() < 2 {
        Some(Seq::empty())
    } else {
        match radix16(p.take(2)) {
            Some(v) => match hex_pairs(p.skip(2)) {
                Some(rest) => Some(seq![v as u8] + rest),
                None => None,
            },
            None => None,
        }
    }
}

/// Hexadecimal text as bytes, a `0` put in front when its length is odd.
pub open spec fn hex_text_bytes(b: Seq<u8>) -> Option<Seq<u8>> {
    hex_pairs(padded(b))
}

pub open spec fn padded(b: Seq<u8>) -> Seq<u8> {
    if b.len() % 2 == 1 { seq![0x30u8] + b } else { b }
}

/// The text between `<` and `>` of a token, when it has that shape.
pub open spec fn angle_inner(tok: Seq<char>) -> Option<Seq<char>> {
    if tok.len() >= 2 && tok[0] == '<' && tok.last() == '>' {
        Some(tok.subrange(1, tok.len() - 1))
    } else {
        None
    }
}

/// The code a `<..>` token gives.
pub open spec fn hex_token_value(tok: Seq<char>) -> Option<u32> {
    match angle_inner(tok) {
        Some(inner) => if inner.len() == 0 { None } else { radix16_chars(inner) },
        None => None,
    }
}

pub open spec fn u16_at(b: Seq<u8>, k: int) -> u32 {
    ((b[k] as int) * 256 + (b[k + 1] as int)) as u32
}

/// The characters of big-endian UTF-16 units taken from `k` on, skipping
/// the units that are not characters.
pub open spec fn units_text(b: Seq<u8>, k: int) -> Seq<char>
    decreases b.len() - k,
{
    if k < 0 || k + 1 >= b.len() {
        Seq::empty()
    } else {
        let u = u16_at(b, k);
        (if is_scalar(u) { seq![u as char] } else { Seq::empty() }) + units_text(b, k + 2)
    }
}

/// The Unicode text of a destination token `<..>`.
pub open spec fn unicode_of_bytes(b: Seq<u8>) -> Option<Seq<char>> {
    if b.len() == 1 {
        Some(seq![b[0] as char])
    } else if b.len() == 2 {
        if is_scalar(u16_at(b, 0)) { Some(seq![u16_at(b, 0) as char]) } else { None }
    } else if b.len() == 4 {
        let u0 = u16_at(b, 0);
        let u1 = u16_at(b, 2);
        if 0xD800 <= u0 <= 0xDBFF && 0xDC00 <= u1 <= 0xDFFF {
            let cp = 0x10000 + (u0 - 0xD800) * 1024 + (u1 - 0xDC00);
            if is_scalar(cp as u32) { Some(seq![cp as char]) } else { None }
        } else if is_scalar(u0) && is_scalar(u1) {
            Some(seq![u0 as char, u1 as char])
        } else {
            None
        }
    } else {
        let s = units_text(b, 0);
        if s.len() == 0 { None } else { Some(s) }
    }
}

/// The `k`-th big-endian UTF-16 unit of `b` (bytes `2k` and `2k + 1`).
pub open spec fn utf16_be_unit(b: Seq<u8>, k: int) -> int {
    (b[2 * k] as int) * 256 + (b[2 * k + 1] as int)
}

/// No unit of `b` is a surrogate.
pub open spec fn no_surrogate_units(b: Seq<u8>) -> bool {
    forall|k: int| 0 <= k < b.len() / 2 ==> !(0xD800 <= #[trigger] utf16_be_unit(b, k) <= 0xDFFF)
}

/// The characters of the units of `b`, one per unit, in the order they stand.
pub open spec fn utf16_be_chars(b: Seq<u8>) -> Seq<char> {
    Seq::new((b.len() / 2) as nat, |k: int| (utf16_be_unit(b, k) as u32) as char)
}

proof fn lemma_units_text_from(b: Seq<u8>, j: int)
    requires
        b.len() % 2 == 0,
        0 <= j <= b.len() / 2,
        no_surrogate_units(b),
    ensures
        units_text(b, 2 * j) == utf16_be_chars(b).skip(j),
    decreases b.len() / 2 - j,
{
    let n = b.len() / 2;
    if j == n {
        assert(utf16_be_chars(b).skip(j) =~= Seq::<char>::empty());
    } else {
        lemma_units_text_from(b, j + 1);
        let u = u16_at(b, 2 * j);
        assert(u as int == utf16_be_unit(b, j));
        assert(!(0xD800 <= utf16_be_unit(b, j) <= 0xDFFF));
        assert(is_scalar(u));
        assert(units_text(b, 2 * j) == seq![u as char] + units_text(b, 2 * j + 2));
        assert(2 * j + 2 == 2 * (j + 1));
        assert(seq![u as char] + utf16_be_chars(b).skip(j + 1) =~= utf16_be_chars(b).skip(j));
    }
}

/// A destination of big-endian UTF-16 units, none of them a surrogate,
/// decodes to the units' characters in the order the units stand: the unit
/// at bytes 0..2 first (so `<00660069>` is "fi").
pub proof fn lemma_utf16_units_in_order(b: Seq<u8>)
    requires
        b.len() >= 2,
        b.len() % 2 == 0,
        no_surrogate_units(b),
    ensures
        unicode_of_bytes(b) == Some(utf16_be_chars(b)),
{
    let c = utf16_be_chars(b);
    assert(utf16_be_unit(b, 0) == u16_at(b, 0) as int);
    assert(!(0xD800 <= utf16_be_unit(b, 0) <= 0xDFFF));
    if b.len() == 2 {
        assert(seq![u16_at(b, 0) as char] =~= c);
    } else if b.len() == 4 {
        assert(utf16_be_unit(b, 1) == u16_at(b, 2) as int);
        assert(!(0xD800 <= utf16_be_unit(b, 1) <= 0xDFFF));
        assert(seq![u16_at(b, 0) as char, u16_at(b, 2) as char] =~= c);
    } else {
        lemma_units_text_from(b, 0);
        assert(c.skip(0) =~= c);
    }
}

/// The UTF-16 surrogate pair of a code point past U+FFFF, as four
/// big-endian bytes: the high surrogate carries the top ten bits of
/// `v - 0x10000`, the low surrogate the bottom ten.
pub open spec fn utf16_be_pair(v: int) -> Seq<u8> {
    let hi = 0xD800 + (v - 0x10000) / 1024;
    let lo = 0xDC00 + (v - 0x10000) % 1024;
    seq![(hi / 256) as u8, (hi % 256) as u8, (lo / 256) as u8, (lo % 256) as u8]
}

/// A destination holding the UTF-16 surrogate pair of a code point past
/// U+FFFF decodes to that one character.
pub proof fn lemma_utf16_surrogate_pair(v: u32)
    requires 0x10000 <= v <= 0x10FFFF,
    ensures unicode_of_bytes(utf16_be_pair(v as int)) == Some(seq![v as char]),
{
    let w = v as int - 0x10000;
    let q = w / 1024;
    let r = w % 1024;
    assert(w == q * 1024 + r && 0 <= r < 1024 && 0 <= q < 1024) by (nonlinear_arith)
        requires w == v as int - 0x10000, 0 <= w < 0x100000, q == w / 1024, r == w % 1024;
    let hi = 0xD800 + q;
    let lo = 0xDC00 + r;
    let b = utf16_be_pair(v as int);
    assert(hi == (hi / 256) * 256 + hi % 256 && 0 <= hi % 256 < 256 && hi / 256 < 256) by (nonlinear_arith)
        requires 0xD800 <= hi < 0xDC00;
    assert(lo == (lo / 256) * 256 + lo % 256 && 0 <= lo % 256 < 256 && lo / 256 < 256) by (nonlinear_arith)
        requires 0xDC00 <= lo < 0xE000;
    assert(u16_at(b, 0) as int == hi);
    assert(u16_at(b, 2) as int == lo);
    let cp = 0x10000 + (u16_at(b, 0) - 0xD800) * 1024 + (u16_at(b, 2) - 0xDC00);
    assert(cp == v as int);
    assert(is_scalar(cp as u32));
}

pub open spec fn hex_token_unicode(tok: Seq<char>) -> Option<Seq<char>> {
    match angle_inner(tok) {
        Some(inner) => if inner.len() == 0 || !all_ascii_chars(inner) {
            None
        } else {
            match hex_text_bytes(ascii_bytes(inner)) {
                Some(b) => unicode_of_bytes(b),
                None => None,
            }
        },
        None => None,
    }
}

fn ascii_of(cs: &[char]) -> (r: Option<Vec<u8>>)
    ensures
        all_ascii_chars(cs@) ==> r is Some && r->Some_0@ == ascii_bytes(cs@),
        !all_ascii_chars(cs@) ==> r is None,
{
    let mut v: Vec<u8> = Vec::new();
    let mut k: usize = 0;
    while k < cs.len()
        invariant k <= cs@.len(), v@ == ascii_bytes(cs@.take(k as int)), all_ascii_chars(cs@.take(k as int)),
        decreases cs.len() - k,
    {
        let c = cs[k];
        if (c as u32) >= 128 {
            return None;
        }
        v.push(c as u8);
        proof {
            assert(v@ =~= ascii_bytes(cs@.take(k + 1)));
            assert(all_ascii_chars(cs@.take(k + 1)));
        }
        k += 1;
    }
    proof { assert(cs@.take(cs@.len() as int) =~= cs@); }
    Some(v)
}

fn hex_pairs_exec(p: &[u8]) -> (r: Option<Vec<u8>>)
    ensures
        match hex_pairs(p@) {
            Some(b) => r is Some && r->Some_0@ == b,
            None => r is None,
        },
    decreases p.len(),
{
    if p.len() < 2 {
        return Some(Vec::new());
    }
    let two = vstd::slice::slice_subrange(p, 0, 2);
    let rest = vstd::slice::slice_subrange(p, 2, p.len());
    proof {
        assert(two@ =~= p@.take(2));
        assert(rest@ =~= p@.skip(2));
    }
    match parse_radix16(two) {
        Some(v) => match hex_pairs_exec(rest) {
            Some(tail) => {
                let mut out: Vec<u8> = Vec::new();
                out.push(v as u8);
                let mut k: usize = 0;
                while k < tail.len()
                    invariant k <= tail@.len(), out@ == seq![v as u8] + tail@.take(k as int),
                    decreases tail.len() - k,
                {
                    out.push(tail[k]);
                    proof { assert(out@ =~= seq![v as u8] + tail@.take(k + 1)); }
                    k += 1;
                }
                proof { assert(tail@.take(tail@.len() as int) =~= tail@); }
                Some(out)
            }
            None => None,
        },
        None => None,
    }
}

fn hex_text_bytes_exec(b: &[u8]) -> (r: Option<Vec<u8>>)
    ensures
        match hex_text_bytes(b@) {
            Some(x) => r is Some && r->Some_0@ == x,
            None => r is None,
        },
{
    if b.len() % 2 == 1 {
        let mut p: Vec<u8> = Vec::new();
        p.push(0x30);
        let mut k: usize = 0;
        while k < b.len()
            invariant k <= b@.len(), p@ == seq![0x30u8] + b@.take(k as int),
            decreases b.len() - k,
        {
            p.push(b[k]);
            proof { assert(p@ =~= seq![0x30u8] + b@.take(k + 1)); }
            k += 1;
        }
        proof { assert(b@.take(b@.len() as int) =~= b@); }
        hex_pairs_exec(p.as_slice())
    } else {
        hex_pairs_exec(b)
    }
}

/// No pair of the padded text starts inside a multi-byte character.
pub open spec fn pairs_on_char_boundaries(b: Seq<u8>) -> bool {
    forall|k: int| 0 <= k < padded(b).len() && k % 2 == 0 ==> !(0x80 <= #[trigger] padded(b)[k] < 0xC0)
}

/// Hexadecimal text as bytes, two digits each; a `0` is put in front of
/// text of odd length. `None` at the first pair that is not a number.
pub fn hex_str_to_bytes(hex: &str) -> (r: Option<Vec<u8>>)
    requires pairs_on_char_boundaries(hex.spec_bytes()),
    ensures
        match hex_text_bytes(hex.spec_bytes()) {
            Some(x) => r is Some && r->Some_0@ == x,
            None => r is None,
        },
{
    hex_text_bytes_exec(hex.as_bytes())
}

fn angle_inner_exec(tok: &Vec<char>) -> (r: Option<Vec<char>>)
    ensures
        match angle_inner(tok@) {
            Some(x) => r is Some && r->Some_0@ == x,
            None => r is None,
        },
{
    let n = tok.len();
    if n >= 2 && tok[0] == '<' && tok[n - 1] == '>' {
        Some(copy_chars(tok, 1, n - 1))
    } else {
        None
    }
}

fn hex_token(tok: &Vec<char>) -> (r: Option<u32>)
    ensures r == hex_token_value(tok@),
{
    match angle_inner_exec(tok) {
        Some(inner) => {
            if inner.len() == 0 {
                return None;
            }
            match ascii_of(inner.as_slice()) {
                Some(b) => parse_radix16(b.as_slice()),
                None => None,
            }
        }
        None => None,
    }
}

fn u16_at_exec(b: &Vec<u8>, k: usize) -> (r: u32)
    requires k + 1 < b@.len(),
    ensures r == u16_at(b@, k as int), r < 0x10000,
{
    let n = b.len();
    (b[k] as u32) * 256 + (b[k + 1] as u32)
}

fn unicode_of_bytes_exec(b: &Vec<u8>) -> (r: Option<Vec<char>>)
    ensures
        match unicode_of_bytes(b@) {
            Some(x) => r is Some && r->Some_0@ == x,
            None => r is None,
        },
{
    let n = b.len();
    if n == 1 {
        let mut v: Vec<char> = Vec::new();
        v.push(b[0] as char);
        proof { assert(v@ =~= seq![b@[0] as char]); }
        Some(v)
    } else if n == 2 {
        match char_from_u32(u16_at_exec(b, 0)) {
            Some(c) => {
                let mut v: Vec<char> = Vec::new();
                v.push(c);
                proof { assert(v@ =~= seq![c]); }
                Some(v)
            }
            None => None,
        }
    } else if n == 4 {
        let u0 = u16_at_exec(b, 0);
        let u1 = u16_at_exec(b, 2);
        if 0xD800 <= u0 && u0 <= 0xDBFF && 0xDC00 <= u1 && u1 <= 0xDFFF {
            let cp: u32 = 0x10000 + (u0 - 0xD800) * 1024 + (u1 - 0xDC00);
            match char_from_u32(cp) {
                Some(c) => {
                    let mut v: Vec<char> = Vec::new();
                    v.push(c);
                    proof { assert(v@ =~= seq![c]); }
                    Some(v)
                }
                None => None,
            }
        } else {
            match (char_from_u32(u0), char_from_u32(u1)) {
                (Some(c0), Some(c1)) => {
                    let mut v: Vec<char> = Vec::new();
                    v.push(c0);
                    v.push(c1);
                    proof { assert(v@ =~= seq![c0, c1]); }
                    Some(v)
                }
                _ => None,
            }
        }
    } else {
        let mut v: Vec<char> = Vec::new();
        let mut k: usize = 0;
        proof { assert(v@ + units_text(b@, 0) =~= units_text(b@, 0)); }
        while k + 1 < n
            invariant n == b@.len(), k % 2 == 0, v@ + units_text(b@, k as int) == units_text(b@, 0),
            decreases n - k,
        {
            let u = u16_at_exec(b, k);
            let ghost before = v@;
            match char_from_u32(u) {
                Some(c) => { v.push(c); }
                None => {}
            }
            proof {
                assert(units_text(b@, k as int) == (if is_scalar(u) { seq![u as char] } else { Seq::<char>::empty() }) + units_text(b@, k + 2));
                assert(v@ + units_text(b@, k + 2) =~= before + units_text(b@, k as int));
            }
            k += 2;
        }
        proof { assert(v@ + units_text(b@, k as int) =~= v@); }
        if v.len() == 0 { None } else { Some(v) }
    }
}

fn hex_unicode(tok: &Vec<char>) -> (r: Option<Vec<char>>)
    ensures
        match hex_token_unicode(tok@) {
            Some(x) => r is Some && r->Some_0@ == x,
            None => r is None,
        },
{
    match angle_inner_exec(tok) {
        Some(inner) => {
            if inner.len() == 0 {
                return None;
            }
            match ascii_of(inner.as_slice()) {
                Some(a) => match hex_text_bytes_exec(a.as_slice()) {
                    Some(b) => unicode_of_bytes_exec(&b),
                    None => None,
                },
                None => None,
            }
        }
        None => None,
    }
}

// ---------------------------------------------------------------------------
// The map
// ---------------------------------------------------------------------------

/// A run of consecutive codes mapped to consecutive code points.
#[derive(Debug, Clone, Copy)]
pub struct BfRange {
    pub start: u32,
    pub end: u32,
    pub base: u32,
}

/// A parsed ToUnicode CMap: single-code mappings (each code once), then
/// ranges tried in order.
#[derive(Debug, Clone)]
pub struct ToUnicodeCMap {
    pub mappings: Vec<(u32, String)>,
    pub ranges: Vec<BfRange>,
}

pub open spec fn mappings_view(m: Seq<(u32, String)>) -> Seq<(u32, Seq<char>)> {
    Seq::new(m.len(), |k: int| (m[k].0, m[k].1@))
}

pub open spec fn ranges_view(r: Seq<BfRange>) -> Seq<(u32, u32, u32)> {
    Seq::new(r.len(), |k: int| (r[k].start, r[k].end, r[k].base))
}

/// Index of the entry for `code` at or after `k`, or -1.
pub open spec fn assoc_find(m: Seq<(u32, Seq<char>)>, code: u32, k: int) -> int
    decreases m.len() - k,
{
    if k < 0 || k >= m.len() {
        -1
    } else if m[k].0 == code {
        k
    } else {
        assoc_find(m, code, k + 1)
    }
}

/// `m` with `code` mapped to `v`: an existing entry is replaced in place,
/// else the entry is appended.
pub open spec fn assoc_insert(m: Seq<(u32, Seq<char>)>, code: u32, v: Seq<char>) -> Seq<(u32, Seq<char>)> {
    let k = assoc_find(m, code, 0);
    if k >= 0 { m.update(k, (code, v)) } else { m.push((code, v)) }
}

/// Index of the first range holding `code` from `k` on, or -1.
pub open spec fn range_find(r: Seq<(u32, u32, u32)>, code: u32, k: int) -> int
    decreases r.len() - k,
{
    if k < 0 || k >= r.len() {
        -1
    } else if r[k].0 <= code && code <= r[k].1 {
        k
    } else {
        range_find(r, code, k + 1)
    }
}

proof fn lemma_assoc_find(m: Seq<(u32, Seq<char>)>, code: u32, k: int)
    requires 0 <= k,
    ensures
        assoc_find(m, code, k) == -1 || (k <= assoc_find(m, code, k) < m.len() && m[assoc_find(m, code, k)].0 == code),
    decreases m.len() - k,
{
    if k < m.len() && m[k].0 != code {
        lemma_assoc_find(m, code, k + 1);
    }
}

proof fn lemma_range_find(r: Seq<(u32, u32, u32)>, code: u32, k: int)
    requires 0 <= k,
    ensures
        range_find(r, code, k) == -1 || (k <= range_find(r, code, k) < r.len()
            && r[range_find(r, code, k)].0 <= code <= r[range_find(r, code, k)].1),
    decreases r.len() - k,
{
    if k < r.len() && !(r[k].0 <= code && code <= r[k].1) {
        lemma_range_find(r, code, k + 1);
    }
}

/// What `to_unicode` gives: the single-code mapping, else the first range
/// holding the code (its base plus the offset, when that is a character).
pub open spec fn cmap_lookup(m: Seq<(u32, Seq<char>)>, r: Seq<(u32, u32, u32)>, code: u32) -> Option<Seq<char>> {
    let k = assoc_find(m, code, 0);
    if k >= 0 {
        Some(m[k].1)
    } else {
        let j = range_find(r, code, 0);
        if j >= 0 {
            let cp = r[j].2 + (code - r[j].0);
            if is_scalar(cp as u32) { Some(seq![cp as char]) } else { None }
        } else {
            None
        }
    }
}

/// In a `bfrange` from `lo` to `hi` starting at `dst`, a code with no
/// single-code mapping of its own maps to the character `dst + (code - lo)`:
/// `lo` to `dst`, and each next code to the next character.
pub proof fn lemma_bfrange_offsets(m: Seq<(u32, Seq<char>)>, lo: u32, hi: u32, dst: u32, code: u32)
    requires
        lo <= code <= hi,
        forall|k: int| 0 <= k < m.len() ==> (#[trigger] m[k]).0 != code,
        dst + (code - lo) <= u32::MAX,
        is_scalar((dst + (code - lo)) as u32),
    ensures
        cmap_lookup(m, seq![(lo, hi, dst)], code) == Some(seq![((dst + (code - lo)) as u32) as char]),
        code == lo ==> cmap_lookup(m, seq![(lo, hi, dst)], code) == Some(seq![dst as char]),
{
    lemma_assoc_find(m, code, 0);
    let r = seq![(lo, hi, dst)];
    assert(range_find(r, code, 0) == 0);
}

/// A range lookup for `code` stays within 32 bits.
pub open spec fn range_fits(r: Seq<(u32, u32, u32)>, code: u32) -> bool {
    let j = range_find(r, code, 0);
    j >= 0 ==> r[j].2 + (code - r[j].0) <= u32::MAX
}

impl ToUnicodeCMap {
    pub open spec fn mappings_spec(&self) -> Seq<(u32, Seq<char>)> {
        mappings_view(self.mappings@)
    }

    pub open spec fn ranges_spec(&self) -> Seq<(u32, u32, u32)> {
        ranges_view(self.ranges@)
    }

    /// Looks a code up: `bfchar` mappings first, then the ranges.
    pub fn to_unicode(&self, code: u32) -> (r: Option<String>)
        requires
            assoc_find(self.mappings_spec(), code, 0) < 0 ==> range_fits(self.ranges_spec(), code),
        ensures
            match cmap_lookup(self.mappings_spec(), self.ranges_spec(), code) {
                Some(s) => r is Some && r->Some_0@ == s,
                None => r is None,
            },
    {
        let ghost m = self.mappings_spec();
        let ghost rs = self.ranges_spec();
        let mut k: usize = 0;
        while k < self.mappings.len()
            invariant
                k <= self.mappings@.len(),
                m == mappings_view(self.mappings@),
                assoc_find(m, code, 0) == assoc_find(m, code, k as int),
            decreases self.mappings.len() - k,
        {
            if self.mappings[k].0 == code {
                return Some(self.mappings[k].1.clone());
            }
            k += 1;
        }
        let mut j: usize = 0;
        while j < self.ranges.len()
            invariant
                j <= self.ranges@.len(),
                rs == ranges_view(self.ranges@),
                m == mappings_view(self.mappings@),
                assoc_find(m, code, 0) == -1,
                range_fits(rs, code),
                range_find(rs, code, 0) == range_find(rs, code, j as int),
            decreases self.ranges.len() - j,
        {
            let r = self.ranges[j];
            if code >= r.start && code <= r.end {
                let cp = r.base + (code - r.start);
                return match char_from_u32(cp) {
                    Some(c) => {
                        let mut v: Vec<char> = Vec::new();
                        v.push(c);
                        proof { assert(v@ =~= seq![c]); }
                        Some(string_from_chars(v.as_slice()))
                    }
                    None => None,
                };
            }
            j += 1;
        }
        None
    }

    /// Number of single-code mappings.
    pub fn mapping_count(&self) -> (r: usize)
        ensures r == self.mappings@.len(),
    {
        self.mappings.len()
    }

    /// Number of ranges.
    pub fn range_count(&self) -> (r: usize)
        ensures r == self.ranges@.len(),
    {
        self.ranges.len()
    }
}

fn insert_mapping(m: &mut Vec<(u32, String)>, code: u32, v: Vec<char>)
    ensures mappings_view(final(m)@) == assoc_insert(mappings_view(old(m)@), code, v@),
{
    let ghost mv = mappings_view(m@);
    let s = string_from_chars(v.as_slice());
    let mut k: usize = 0;
    while k < m.len()
        invariant
            k <= m@.len(),
            mv == mappings_view(m@),
            mv == mappings_view(old(m)@),
            s@ == v@,
            assoc_find(mv, code, 0) == assoc_find(mv, code, k as int),
        decreases m.len() - k,
    {
        if m[k].0 == code {
            proof { assert(mv[k as int].0 == code); assert(assoc_find(mv, code, k as int) == k); }
            m.set(k, (code, s));
            proof { assert(mappings_view(m@) =~= mv.update(k as int, (code, v@))); }
            return;
        }
        k += 1;
    }
    m.push((code, s));
    proof { assert(mappings_view(m@) =~= mv.push((code, v@))); }
}

// ---------------------------------------------------------------------------
// Parsing
// ---------------------------------------------------------------------------

/// The `bfchar` entries from token `i` to `endbfchar` (or the end): each pair
/// of a source code and destination text is recorded where both read.
/// Gives the index where the run stopped and the mappings.
pub open spec fn bfchar_run(t: Seq<Seq<char>>, i: int, m: Seq<(u32, Seq<char>)>) -> (int, Seq<(u32, Seq<char>)>)
    decreases t.len() - i,
{
    if i < 0 || i >= t.len() || t[i] == "endbfchar"@ {
        (i, m)
    } else if i + 1 < t.len() {
        let m2 = match (hex_token_value(t[i]), hex_token_unicode(t[i + 1])) {
            (Some(s), Some(d)) => assoc_insert(m, s, d),
            _ => m,
        };
        bfchar_run(t, i + 2, m2)
    } else {
        (i, m)
    }
}

/// The tokens of an array destination `[<..> <..> ...]` that have the
/// `<..>` shape.
pub open spec fn angle_tokens(ts: Seq<Seq<char>>) -> Seq<Seq<char>>
    decreases ts.len(),
{
    if ts.len() == 0 {
        Seq::empty()
    } else {
        angle_tokens(ts.drop_last()) + (if angle_inner(ts.last()) is Some { seq![ts.last()] } else { Seq::empty() })
    }
}

/// The inside of an array token (the token itself when it is not closed).
pub open spec fn array_inner(tok: Seq<char>) -> Seq<char> {
    if tok.len() >= 2 && tok.last() == ']' { tok.subrange(1, tok.len() - 1) } else { tok }
}

pub open spec fn array_items(tok: Seq<char>) -> Seq<Seq<char>> {
    angle_tokens(cmap_tokens(array_inner(tok), 0))
}

/// Codes `s`, `s + 1`, ... up to `e` take the array's items in turn.
pub open spec fn array_fill(items: Seq<Seq<char>>, s: u32, e: u32, off: int, m: Seq<(u32, Seq<char>)>) -> Seq<(u32, Seq<char>)>
    decreases items.len() - off,
{
    if off < 0 || off >= items.len() || s + off > e {
        m
    } else {
        let m2 = match hex_token_unicode(items[off]) {
            Some(u) => assoc_insert(m, (s + off) as u32, u),
            None => m,
        };
        array_fill(items, s, e, off + 1, m2)
    }
}

/// The `bfrange` entries from token `i` to `endbfrange` (or the end).
pub open spec fn bfrange_run(t: Seq<Seq<char>>, i: int, m: Seq<(u32, Seq<char>)>, r: Seq<(u32, u32, u32)>)
    -> (int, Seq<(u32, Seq<char>)>, Seq<(u32, u32, u32)>)
    decreases t.len() - i,
{
    if i < 0 || i >= t.len() || t[i] == "endbfrange"@ {
        (i, m, r)
    } else if i + 2 < t.len() {
        let (m2, r2) = match (hex_token_value(t[i]), hex_token_value(t[i + 1])) {
            (Some(s), Some(e)) => if t[i + 2].len() > 0 && t[i + 2][0] == '[' {
                (array_fill(array_items(t[i + 2]), s, e, 0, m), r)
            } else {
                match hex_token_value(t[i + 2]) {
                    Some(b) => (m, r.push((s, e, b))),
                    None => (m, r),
                }
            },
            _ => (m, r),
        };
        bfrange_run(t, i + 3, m2, r2)
    } else {
        (i, m, r)
    }
}

pub proof fn lemma_bfchar_run(t: Seq<Seq<char>>, i: int, m: Seq<(u32, Seq<char>)>)
    requires 0 <= i,
    ensures bfchar_run(t, i, m).0 >= i, i <= t.len() ==> bfchar_run(t, i, m).0 <= t.len(),
    decreases t.len() - i,
{
    if i < t.len() && t[i] != "endbfchar"@ && i + 1 < t.len() {
        let m2 = match (hex_token_value(t[i]), hex_token_unicode(t[i + 1])) {
            (Some(s), Some(d)) => assoc_insert(m, s, d),
            _ => m,
        };
        lemma_bfchar_run(t, i + 2, m2);
    }
}

pub proof fn lemma_bfrange_run(t: Seq<Seq<char>>, i: int, m: Seq<(u32, Seq<char>)>, r: Seq<(u32, u32, u32)>)
    requires 0 <= i,
    ensures bfrange_run(t, i, m, r).0 >= i, i <= t.len() ==> bfrange_run(t, i, m, r).0 <= t.len(),
    decreases t.len() - i,
{
    if i < t.len() && t[i] != "endbfrange"@ && i + 2 < t.len() {
        let (m2, r2) = match (hex_token_value(t[i]), hex_token_value(t[i + 1])) {
            (Some(s), Some(e)) => if t[i + 2].len() > 0 && t[i + 2][0] == '[' {
                (array_fill(array_items(t[i + 2]), s, e, 0, m), r)
            } else {
                match hex_token_value(t[i + 2]) {
                    Some(b) => (m, r.push((s, e, b))),
                    None => (m, r),
                }
            },
            _ => (m, r),
        };
        lemma_bfrange_run(t, i + 3, m2, r2);
    }
}

/// The mappings and ranges of a CMap's tokens, read from token `i` on.
pub open spec fn cmap_parse(t: Seq<Seq<char>>, i: int, m: Seq<(u32, Seq<char>)>, r: Seq<(u32, u32, u32)>)
    -> (Seq<(u32, Seq<char>)>, Seq<(u32, u32, u32)>)
    decreases t.len() - i,
{
    if i < 0 || i >= t.len() {
        (m, r)
    } else if t[i] == "beginbfchar"@ {
        proof { lemma_bfchar_run(t, i + 1, m); }
        let j = bfchar_run(t, i + 1, m).0;
        let m2 = bfchar_run(t, i + 1, m).1;
        cmap_parse(t, j, m2, r)
    } else if t[i] == "beginbfrange"@ {
        proof { lemma_bfrange_run(t, i + 1, m, r); }
        let j = bfrange_run(t, i + 1, m, r).0;
        let m2 = bfrange_run(t, i + 1, m, r).1;
        let r2 = bfrange_run(t, i + 1, m, r).2;
        cmap_parse(t, j, m2, r2)
    } else {
        cmap_parse(t, i + 1, m, r)
    }
}

/// What `parse_to_unicode_cmap` reads from raw bytes.
pub open spec fn cmap_of_bytes(data: Seq<u8>) -> (Seq<(u32, Seq<char>)>, Seq<(u32, u32, u32)>) {
    cmap_parse(cmap_tokens(utf8_lossy(data), 0), 0, Seq::empty(), Seq::empty())
}

fn angle_tokens_exec(ts: &Vec<Vec<char>>) -> (r: Vec<Vec<char>>)
    ensures tokens_view(r@) == angle_tokens(tokens_view(ts@)),
{
    let ghost tv = tokens_view(ts@);
    let mut out: Vec<Vec<char>> = Vec::new();
    let mut k: usize = 0;
    while k < ts.len()
        invariant
            k <= ts@.len(),
            tv == tokens_view(ts@),
            tokens_view(out@) == angle_tokens(tv.take(k as int)),
        decreases ts.len() - k,
    {
        let ghost before = tokens_view(out@);
        proof { assert(tv.take(k + 1).drop_last() =~= tv.take(k as int)); }
        let t = &ts[k];
        let n = t.len();
        if n >= 2 && t[0] == '<' && t[n - 1] == '>' {
            let c = copy_chars(t, 0, n);
            proof { assert(c@ =~= tv[k as int]); }
            out.push(c);
            proof { assert(tokens_view(out@) =~= before.push(tv[k as int])); }
        } else {
            proof { assert(tokens_view(out@) =~= before); }
        }
        proof { assert(angle_tokens(tv.take(k + 1)) =~= tokens_view(out@)); }
        k += 1;
    }
    proof { assert(tv.take(ts@.len() as int) =~= tv); }
    out
}

fn array_items_exec(tok: &Vec<char>) -> (r: Vec<Vec<char>>)
    ensures tokens_view(r@) == array_items(tok@),
{
    let n = tok.len();
    let inner = if n >= 2 && tok[n - 1] == ']' { copy_chars(tok, 1, n - 1) } else { copy_chars(tok, 0, n) };
    proof { assert(inner@ =~= array_inner(tok@)); }
    let toks = tokenize_cmap(&inner);
    angle_tokens_exec(&toks)
}

fn fill_from_array(m: &mut Vec<(u32, String)>, items: &Vec<Vec<char>>, s: u32, e: u32)
    ensures mappings_view(final(m)@) == array_fill(tokens_view(items@), s, e, 0, mappings_view(old(m)@)),
{
    let ghost iv = tokens_view(items@);
    let ghost target = array_fill(iv, s, e, 0, mappings_view(m@));
    let mut off: usize = 0;
    while off < items.len() && s <= e && off as u64 <= (e - s) as u64
        invariant
            iv == tokens_view(items@),
            off <= items@.len(),
            array_fill(iv, s, e, off as int, mappings_view(m@)) == target,
        decreases items.len() - off,
    {
        let code = s + off as u32;
        match hex_unicode(&items[off]) {
            Some(u) => { insert_mapping(m, code, u); }
            None => {}
        }
        off += 1;
    }
}

/// Reads a CMap's tokens from `i` on into `m` and `r`.
fn parse_tokens(t: &Vec<Vec<char>>, m: &mut Vec<(u32, String)>, r: &mut Vec<BfRange>)
    ensures
        (mappings_view(final(m)@), ranges_view(final(r)@))
            == cmap_parse(tokens_view(t@), 0, mappings_view(old(m)@), ranges_view(old(r)@)),
{
    let ghost tv = tokens_view(t@);
    let ghost target = cmap_parse(tv, 0, mappings_view(m@), ranges_view(r@));
    let n = t.len();
    let mut i: usize = 0;
    while i < n
        invariant
            n == t@.len(),
            tv == tokens_view(t@),
            i <= n,
            cmap_parse(tv, i as int, mappings_view(m@), ranges_view(r@)) == target,
        decreases n - i,
    {
        if chars_eq_str(t[i].as_slice(), "beginbfchar") {
            let ghost m0 = mappings_view(m@);
            let ghost run = bfchar_run(tv, i + 1, m0);
            let mut j: usize = i + 1;
            let mut go = true;
            while go
                invariant
                    n == t@.len(),
                    tv == tokens_view(t@),
                    i < j <= n,
                    go ==> bfchar_run(tv, j as int, mappings_view(m@)) == run,
                    !go ==> (j as int, mappings_view(m@)) == run,
                    cmap_parse(tv, i as int, m0, ranges_view(r@)) == target,
                decreases n - j + (if go { 1int } else { 0 }),
            {
                if j >= n || chars_eq_str(t[j].as_slice(), "endbfchar") {
                    go = false;
                } else if j + 1 < n {
                    let src = hex_token(&t[j]);
                    let dst = hex_unicode(&t[j + 1]);
                    match (src, dst) {
                        (Some(sc), Some(d)) => { insert_mapping(m, sc, d); }
                        _ => {}
                    }
                    j += 2;
                } else {
                    go = false;
                }
            }
            i = j;
        } else if chars_eq_str(t[i].as_slice(), "beginbfrange") {
            let ghost m0 = mappings_view(m@);
            let ghost r0 = ranges_view(r@);
            let ghost run = bfrange_run(tv, i + 1, m0, r0);
            let mut j: usize = i + 1;
            let mut go = true;
            while go
                invariant
                    n == t@.len(),
                    tv == tokens_view(t@),
                    i < j <= n,
                    go ==> bfrange_run(tv, j as int, mappings_view(m@), ranges_view(r@)) == run,
                    !go ==> (j as int, mappings_view(m@), ranges_view(r@)) == run,
                    cmap_parse(tv, i as int, m0, r0) == target,
                decreases n - j + (if go { 1int } else { 0 }),
            {
                if j >= n || chars_eq_str(t[j].as_slice(), "endbfrange") {
                    go = false;
                } else if n - j > 2 {
                    let start = hex_token(&t[j]);
                    let end = hex_token(&t[j + 1]);
                    match (start, end) {
                        (Some(s), Some(e)) => {
                            let base_tok = &t[j + 2];
                            if base_tok.len() > 0 && base_tok[0] == '[' {
                                let items = array_items_exec(base_tok);
                                fill_from_array(m, &items, s, e);
                            } else {
                                match hex_token(base_tok) {
                                    Some(b) => {
                                        let ghost rv = ranges_view(r@);
                                        r.push(BfRange { start: s, end: e, base: b });
                                        proof { assert(ranges_view(r@) =~= rv.push((s, e, b))); }
                                    }
                                    None => {}
                                }
                            }
                        }
                        _ => {}
                    }
                    j += 3;
                } else {
                    go = false;
                }
            }
            i = j;
        } else {
            i += 1;
        }
    }
}

/// Parses a ToUnicode CMap from raw bytes (read as UTF-8, lossily).
pub fn parse_to_unicode_cmap(data: &[u8]) -> (r: ToUnicodeCMap)
    ensures (r.mappings_spec(), r.ranges_spec()) == cmap_of_bytes(data@),
{
    let cs = lossy_chars(data);
    let toks = tokenize_cmap(&cs);
    let mut m: Vec<(u32, String)> = Vec::new();
    let mut r: Vec<BfRange> = Vec::new();
    proof {
        assert(mappings_view(m@) =~= Seq::<(u32, Seq<char>)>::empty());
        assert(ranges_view(r@) =~= Seq::<(u32, u32, u32)>::empty());
    }
    parse_tokens(&toks, &mut m, &mut r);
    ToUnicodeCMap { mappings: m, ranges: r }
}

} // verus!

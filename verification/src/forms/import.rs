//! Reading form data: field name/value pairs from FDF or XFDF, set on the
//! document's fields of the same name.

use vstd::prelude::*;
use crate::bytes::lit;
use crate::cos::{CosValue, ObjectId, dict_lookup};
use crate::document::{Document, PdfResult, store_find};
use crate::forms::{acro_form_dict, field_is, form_fields};
use crate::forms::field::{PdField, field_name, set_field_value, value_set_find, with_entry};
use crate::metadata::xmp::{decode_entities, decode_xml_entities};
use crate::forms::export::{pdf_escape_char, pdf_escaped};
use crate::text::{from_utf8_lossy, from_utf8_strict, push_char, str_chars, string_from_chars, utf8_lossy, utf8_text};

verus! {

/// Unicode white space (`char::is_whitespace`).
pub open spec fn is_ws(c: char) -> bool {
    let v = c as u32;
    (0x09 <= v && v <= 0x0d) || v == 0x20 || v == 0x85 || v == 0xa0 || v == 0x1680
        || (0x2000 <= v && v <= 0x200a) || v == 0x2028 || v == 0x2029 || v == 0x202f || v == 0x205f || v == 0x3000
}

fn is_ws_exec(c: char) -> (r: bool)
    ensures r == is_ws(c),
{
    let v = c as u32;
    (0x09 <= v && v <= 0x0d) || v == 0x20 || v == 0x85 || v == 0xa0 || v == 0x1680
        || (0x2000 <= v && v <= 0x200a) || v == 0x2028 || v == 0x2029 || v == 0x202f || v == 0x205f || v == 0x3000
}

/// The tokenizer's state: tokens so far, the token being read, and whether
/// it is inside a parenthesised string (just after a backslash).
pub struct TokState {
    pub tokens: Seq<Seq<char>>,
    pub cur: Seq<char>,
    pub in_paren: bool,
    pub escape: bool,
}

/// `toks` with `cur` added when it is not empty.
pub open spec fn flush(toks: Seq<Seq<char>>, cur: Seq<char>) -> Seq<Seq<char>> {
    if cur.len() > 0 { toks.push(cur) } else { toks }
}

/// One character through the tokenizer: strings in parentheses are one
/// token (backslash escapes kept); `/` starts a name; `[ ] < >` are tokens
/// of their own; white space ends a token.
pub open spec fn tok_step(st: TokState, c: char) -> TokState {
    if st.escape {
        TokState { cur: st.cur.push(c), escape: false, ..st }
    } else if c == '\\' && st.in_paren {
        TokState { cur: st.cur.push(c), escape: true, ..st }
    } else if st.in_paren {
        if c == ')' {
            TokState { tokens: st.tokens.push(st.cur.push(c)), cur: Seq::empty(), in_paren: false, escape: false }
        } else {
            TokState { cur: st.cur.push(c), ..st }
        }
    } else if c == '(' {
        TokState { tokens: flush(st.tokens, st.cur), cur: seq!['('], in_paren: true, escape: false }
    } else {
        let split = c == '/' && st.cur.len() > 0 && st.cur[0] != '/';
        let toks1 = if split { st.tokens.push(st.cur) } else { st.tokens };
        let cur1 = if split { Seq::empty() } else { st.cur };
        if c == '/' {
            TokState { tokens: flush(toks1, cur1), cur: seq!['/'], in_paren: false, escape: false }
        } else if c == '[' || c == ']' || c == '<' || c == '>' {
            TokState { tokens: flush(toks1, cur1).push(seq![c]), cur: Seq::empty(), in_paren: false, escape: false }
        } else if is_ws(c) {
            TokState { tokens: flush(toks1, cur1), cur: Seq::empty(), in_paren: false, escape: false }
        } else {
            TokState { tokens: toks1, cur: cur1.push(c), in_paren: false, escape: false }
        }
    }
}

/// The tokenizer's state after the characters `cs`.
pub open spec fn tok_run(cs: Seq<char>) -> TokState
    decreases cs.len(),
{
    if cs.len() == 0 {
        TokState { tokens: Seq::empty(), cur: Seq::empty(), in_paren: false, escape: false }
    } else {
        tok_step(tok_run(cs.drop_last()), cs.last())
    }
}

/// The tokens of FDF text.
pub open spec fn fdf_tokens(cs: Seq<char>) -> Seq<Seq<char>> {
    flush(tok_run(cs).tokens, tok_run(cs).cur)
}

pub open spec fn strings_view(v: Seq<String>) -> Seq<Seq<char>> {
    Seq::new(v.len(), |i: int| v[i]@)
}

/// The tokens of FDF text (see `fdf_tokens`).
pub fn tokenize_fdf(text: &str) -> (r: Vec<String>)
    ensures strings_view(r@) == fdf_tokens(text@),
{
    let cs = str_chars(text);
    let mut tokens: Vec<String> = Vec::new();
    let mut current: Vec<char> = Vec::new();
    let mut in_paren = false;
    let mut escape = false;
    let mut i: usize = 0;
    while i < cs.len()
        invariant
            i <= cs@.len(),
            cs@ == text@,
            strings_view(tokens@) == tok_run(cs@.take(i as int)).tokens,
            current@ == tok_run(cs@.take(i as int)).cur,
            in_paren == tok_run(cs@.take(i as int)).in_paren,
            escape == tok_run(cs@.take(i as int)).escape,
        decreases cs.len() - i,
    {
        let c = cs[i];
        let ghost st = tok_run(cs@.take(i as int));
        let ghost tv = tokens@;
        proof {
            assert(cs@.take(i + 1).drop_last() =~= cs@.take(i as int));
            assert(cs@.take(i + 1).last() == c);
        }
        if escape {
            current.push(c);
            escape = false;
        } else if c == '\\' && in_paren {
            current.push(c);
            escape = true;
        } else if in_paren {
            if c == ')' {
                current.push(c);
                tokens.push(string_from_chars(current.as_slice()));
                current = Vec::new();
                in_paren = false;
                proof { assert(strings_view(tokens@) =~= strings_view(tv).push(st.cur.push(c))); }
            } else {
                current.push(c);
            }
        } else if c == '(' {
            if current.len() > 0 {
                tokens.push(string_from_chars(current.as_slice()));
            }
            proof { assert(strings_view(tokens@) =~= flush(strings_view(tv), st.cur)); }
            current = Vec::new();
            current.push('(');
            in_paren = true;
        } else {
            if c == '/' && current.len() > 0 && current[0] != '/' {
                tokens.push(string_from_chars(current.as_slice()));
                current = Vec::new();
                proof { assert(strings_view(tokens@) =~= strings_view(tv).push(st.cur)); }
            }
            let ghost tv1 = tokens@;
            let ghost cur1 = current@;
            if c == '/' || c == '[' || c == ']' || c == '<' || c == '>' {
                if current.len() > 0 {
                    tokens.push(string_from_chars(current.as_slice()));
                    current = Vec::new();
                }
                proof { assert(strings_view(tokens@) =~= flush(strings_view(tv1), cur1)); }
                if c == '/' {
                    current.push('/');
                    proof { assert(current@ =~= seq!['/']); }
                } else {
                    let mut one: Vec<char> = Vec::new();
                    one.push(c);
                    let ghost tv2 = tokens@;
                    tokens.push(string_from_chars(one.as_slice()));
                    proof { assert(strings_view(tokens@) =~= strings_view(tv2).push(seq![c])); }
                }
            } else if is_ws_exec(c) {
                if current.len() > 0 {
                    tokens.push(string_from_chars(current.as_slice()));
                    current = Vec::new();
                }
                proof { assert(strings_view(tokens@) =~= flush(strings_view(tv1), cur1)); }
            } else {
                current.push(c);
            }
        }
        proof {
            assert(strings_view(tokens@) =~= tok_run(cs@.take(i + 1)).tokens);
            assert(current@ =~= tok_run(cs@.take(i + 1)).cur);
        }
        i += 1;
    }
    proof { assert(cs@.take(cs@.len() as int) =~= cs@); }
    let ghost tv = tokens@;
    if current.len() > 0 {
        tokens.push(string_from_chars(current.as_slice()));
    }
    proof { assert(strings_view(tokens@) =~= flush(strings_view(tv), current@)); }
    tokens
}

/// The first position from `i` that is not white space.
pub open spec fn ws_lead(s: Seq<char>, i: int) -> int
    decreases s.len() - i,
{
    if 0 <= i < s.len() && is_ws(s[i]) { ws_lead(s, i + 1) } else { i }
}

/// The end of `s[..j]` once trailing white space is dropped.
pub open spec fn ws_trail(s: Seq<char>, j: int) -> int
    decreases j,
{
    if 0 < j <= s.len() && is_ws(s[j - 1]) { ws_trail(s, j - 1) } else { j }
}

/// `s` without white space at either end (`str::trim`).
pub open spec fn trimmed(s: Seq<char>) -> Seq<char> {
    let a = ws_lead(s, 0);
    if a >= s.len() { Seq::empty() } else { s.subrange(a, ws_trail(s, s.len() as int)) }
}

/// The inside of a parenthesised string; other text as it is.
pub open spec fn unparen(t: Seq<char>) -> Seq<char> {
    if t.len() >= 2 && t[0] == '(' && t.last() == ')' { t.subrange(1, t.len() - 1) } else { t }
}

pub open spec fn is_digit(c: char) -> bool {
    '0' <= c && c <= '9'
}

/// The value of octal digits, `None` when one is 8 or 9 or the value does
/// not fit in a byte.
pub open spec fn octal_value(ds: Seq<char>) -> Option<int>
    decreases ds.len(),
{
    if ds.len() == 0 {
        Some(0)
    } else {
        match octal_value(ds.drop_last()) {
            Some(v) => if ds.last() <= '7' && v * 8 + (ds.last() as int - 0x30) <= 255 {
                Some(v * 8 + (ds.last() as int - 0x30))
            } else {
                None
            },
            None => None,
        }
    }
}

/// The octal escape starting with the digit at `p`: its digits (up to
/// three) and where reading goes on. A character after the first digit that
/// is not a digit is read and dropped.
pub open spec fn octal_digits(cs: Seq<char>, p: int) -> (Seq<char>, int) {
    let k = p + 1;
    if k >= cs.len() {
        (seq![cs[p]], k)
    } else if is_digit(cs[k]) {
        let k2 = p + 2;
        if k2 >= cs.len() {
            (seq![cs[p], cs[k]], k2)
        } else if is_digit(cs[k2]) {
            (seq![cs[p], cs[k], cs[k2]], k2 + 1)
        } else {
            (seq![cs[p], cs[k]], k2 + 1)
        }
    } else {
        (seq![cs[p]], k + 1)
    }
}

/// The text of a PDF string body from `i`, escapes read: `\n \r \t \( \) \\`,
/// octal codes, and any other character after a backslash as itself.
pub open spec fn unesc_from(cs: Seq<char>, i: int) -> Seq<char>
    decreases cs.len() - i,
{
    if i < 0 || i >= cs.len() {
        Seq::empty()
    } else if cs[i] != '\\' {
        seq![cs[i]] + unesc_from(cs, i + 1)
    } else if i + 1 >= cs.len() {
        Seq::empty()
    } else {
        let d = cs[i + 1];
        if d == 'n' {
            seq!['\n'] + unesc_from(cs, i + 2)
        } else if d == 'r' {
            seq!['\r'] + unesc_from(cs, i + 2)
        } else if d == 't' {
            seq!['\t'] + unesc_from(cs, i + 2)
        } else if is_digit(d) {
            let (ds, next) = octal_digits(cs, i + 1);
            (match octal_value(ds) {
                Some(v) => seq![v as char],
                None => Seq::empty(),
            }) + unesc_from(cs, next)
        } else {
            seq![d] + unesc_from(cs, i + 2)
        }
    }
}

/// A string token's text: trimmed, its parentheses removed, its escapes read.
pub open spec fn unescaped(t: Seq<char>) -> Seq<char> {
    unesc_from(unparen(trimmed(t)), 0)
}

fn octal_char(ds: &Vec<char>) -> (r: Option<char>)
    requires 1 <= ds@.len() <= 3, forall|k: int| 0 <= k < ds@.len() ==> is_digit(#[trigger] ds@[k]),
    ensures
        match octal_value(ds@) {
            Some(v) => r == Some(v as char) && 0 <= v <= 255,
            None => r is None,
        },
{
    let mut v: u32 = 0;
    let mut i: usize = 0;
    while i < ds.len()
        invariant
            i <= ds@.len(), ds@.len() <= 3,
            forall|k: int| 0 <= k < ds@.len() ==> is_digit(#[trigger] ds@[k]),
            octal_value(ds@.take(i as int)) == Some(v as int),
            v <= 255,
        decreases ds.len() - i,
    {
        let c = ds[i];
        proof { assert(ds@.take(i + 1).drop_last() =~= ds@.take(i as int)); }
        if c > '7' {
            proof { lemma_octal_none_extends(ds@, i as int + 1); }
            return None;
        }
        let d = (c as u32) - 0x30;
        let nv = v * 8 + d;
        if nv > 255 {
            proof { lemma_octal_none_extends(ds@, i as int + 1); }
            return None;
        }
        v = nv;
        i += 1;
    }
    proof { assert(ds@.take(ds@.len() as int) =~= ds@); }
    let b = v as u8;
    Some(b as char)
}

proof fn lemma_octal_none_extends(ds: Seq<char>, n: int)
    requires 0 <= n <= ds.len(), octal_value(ds.take(n)) is None,
    ensures octal_value(ds) is None,
    decreases ds.len() - n,
{
    if n < ds.len() {
        assert(ds.take(n + 1).drop_last() =~= ds.take(n));
        lemma_octal_none_extends(ds, n + 1);
    } else {
        assert(ds.take(n) =~= ds);
    }
}

/// The text of a string token (see `unescaped`).
pub fn unescape_pdf_string(s: &str) -> (r: String)
    ensures r@ == unescaped(s@),
{
    let all = str_chars(s);
    let n = all.len();
    let mut a: usize = 0;
    while a < n && is_ws_exec(all[a])
        invariant a <= n, n == all@.len(), ws_lead(all@, 0) == ws_lead(all@, a as int),
        decreases n - a,
    {
        a += 1;
    }
    let mut b: usize = n;
    while b > a && is_ws_exec(all[b - 1])
        invariant a <= b <= n, n == all@.len(),
            a < n ==> !is_ws(all@[a as int]),
            a < n ==> a < b,
            a < n ==> ws_trail(all@, n as int) == ws_trail(all@, b as int),
        decreases b,
    {
        b -= 1;
    }
    let mut t: Vec<char> = Vec::new();
    let mut k = a;
    while k < b
        invariant a <= k <= b, b <= all@.len(), t@ == all@.subrange(a as int, k as int),
        decreases b - k,
    {
        t.push(all[k]);
        proof { assert(t@ =~= all@.subrange(a as int, k + 1)); }
        k += 1;
    }
    proof {
        if a >= n {
            assert(t@ =~= trimmed(all@));
        } else {
            lemma_ws_trail(all@, n as int, a as int);
            assert(ws_lead(all@, a as int) == a);
            assert(b > a);
            assert(ws_trail(all@, b as int) == b);
            assert(t@ =~= trimmed(all@));
        }
    }
    let tl = t.len();
    let cs: Vec<char> = if tl >= 2 && t[0] == '(' && t[tl - 1] == ')' {
        let mut u: Vec<char> = Vec::new();
        let mut q: usize = 1;
        while q < tl - 1
            invariant 1 <= q <= tl - 1, tl == t@.len(), tl >= 2, u@ == t@.subrange(1, q as int),
            decreases tl - 1 - q,
        {
            u.push(t[q]);
            proof { assert(u@ =~= t@.subrange(1, q + 1)); }
            q += 1;
        }
        u
    } else {
        t
    };
    proof { assert(cs@ == unparen(trimmed(s@))); }
    let mut out: Vec<char> = Vec::new();
    let mut i: usize = 0;
    let ghost whole = unesc_from(cs@, 0);
    while i < cs.len()
        invariant
            i <= cs@.len(),
            whole == unesc_from(cs@, 0),
            whole == out@ + unesc_from(cs@, i as int),
        decreases cs.len() - i,
    {
        let c = cs[i];
        if c != '\\' {
            out.push(c);
            proof { assert(whole =~= out@ + unesc_from(cs@, i + 1)); }
            i += 1;
        } else if i + 1 >= cs.len() {
            proof { assert(whole =~= out@ + unesc_from(cs@, cs@.len() as int)); }
            i = cs.len();
        } else {
            let d = cs[i + 1];
            if d == 'n' {
                out.push('\n');
                proof { assert(whole =~= out@ + unesc_from(cs@, i + 2)); }
                i += 2;
            } else if d == 'r' {
                out.push('\r');
                proof { assert(whole =~= out@ + unesc_from(cs@, i + 2)); }
                i += 2;
            } else if d == 't' {
                out.push('\t');
                proof { assert(whole =~= out@ + unesc_from(cs@, i + 2)); }
                i += 2;
            } else if '0' <= d && d <= '9' {
                let p = i + 1;
                let mut ds: Vec<char> = Vec::new();
                ds.push(d);
                let mut next = p + 1;
                if p + 1 < cs.len() {
                    if '0' <= cs[p + 1] && cs[p + 1] <= '9' {
                        ds.push(cs[p + 1]);
                        if p + 2 < cs.len() {
                            if '0' <= cs[p + 2] && cs[p + 2] <= '9' {
                                ds.push(cs[p + 2]);
                            }
                            next = p + 3;
                        } else {
                            next = p + 2;
                        }
                    } else {
                        next = p + 2;
                    }
                }
                proof {
                    let (od, on) = octal_digits(cs@, p as int);
                    assert(ds@ =~= od);
                    assert(next as int == on);
                }
                let ghost before = out@;
                match octal_char(&ds) {
                    Some(ch) => {
                        out.push(ch);
                    }
                    None => {}
                }
                proof { assert(whole =~= out@ + unesc_from(cs@, next as int)); }
                i = next;
            } else {
                out.push(d);
                proof { assert(whole =~= out@ + unesc_from(cs@, i + 2)); }
                i += 2;
            }
        }
    }
    proof { assert(out@ =~= whole); }
    string_from_chars(out.as_slice())
}

proof fn lemma_ws_trail(s: Seq<char>, j: int, a: int)
    requires 0 <= a < j <= s.len(), !is_ws(s[a]),
    ensures a < ws_trail(s, j) <= j,
    decreases j,
{
    if is_ws(s[j - 1]) {
        lemma_ws_trail(s, j - 1, a);
    }
}

/// The first `/V` token in `toks[j..end]` with a token after it.
pub open spec fn first_v(toks: Seq<Seq<char>>, j: int, end: int) -> Option<int>
    decreases end - j,
{
    if j < 0 || j >= end || j >= toks.len() {
        None
    } else if toks[j] == "/V"@ && j + 1 < toks.len() {
        Some(j)
    } else {
        first_v(toks, j + 1, end)
    }
}

pub proof fn lemma_first_v(toks: Seq<Seq<char>>, j: int, end: int)
    requires 0 <= j,
    ensures first_v(toks, j, end) matches Some(k) ==> j <= k && k + 1 < toks.len(),
    decreases end - j,
{
    if j < end && j < toks.len() && !(toks[j] == "/V"@ && j + 1 < toks.len()) {
        lemma_first_v(toks, j + 1, end);
    }
}

/// The name/value pairs of FDF tokens from `i`: a `/T` token names the
/// string after it, and the value is the token after the next `/V` within
/// the following eight tokens.
pub open spec fn fdf_pairs(toks: Seq<Seq<char>>, i: int) -> Seq<(Seq<char>, Seq<char>)>
    decreases toks.len() - i,
{
    if i < 0 || i >= toks.len() {
        Seq::empty()
    } else if toks[i] == "/T"@ && i + 2 < toks.len() {
        let end = if toks.len() < i + 10 { toks.len() as int } else { i + 10 };
        match first_v(toks, i + 2, end) {
            Some(j) => {
                proof { lemma_first_v(toks, i + 2, end); }
                seq![(unescaped(toks[i + 1]), unescaped(toks[j + 1]))] + fdf_pairs(toks, j + 1)
            },
            None => fdf_pairs(toks, i + 1),
        }
    } else {
        fdf_pairs(toks, i + 1)
    }
}

/// The name/value pairs of FDF data; none when it is not UTF-8.
pub open spec fn fdf_data_pairs(data: Seq<u8>) -> Seq<(Seq<char>, Seq<char>)> {
    match utf8_text(data) {
        Some(t) => fdf_pairs(fdf_tokens(t), 0),
        None => Seq::empty(),
    }
}

pub open spec fn pairs_text(v: Seq<(String, String)>) -> Seq<(Seq<char>, Seq<char>)> {
    Seq::new(v.len(), |i: int| (v[i].0@, v[i].1@))
}

/// The name/value pairs of FDF data (see `fdf_data_pairs`).
pub fn parse_fdf_fields(data: &[u8]) -> (r: Vec<(String, String)>)
    ensures pairs_text(r@) == fdf_data_pairs(data@),
{
    let mut fields: Vec<(String, String)> = Vec::new();
    let text = match from_utf8_strict(data) {
        Some(t) => t,
        None => {
            proof { assert(pairs_text(fields@) =~= Seq::<(Seq<char>, Seq<char>)>::empty()); }
            return fields;
        }
    };
    let tokens = tokenize_fdf(text.as_str());
    let ghost toks = strings_view(tokens@);
    let ghost whole = fdf_pairs(toks, 0);
    let mut i: usize = 0;
    while i < tokens.len()
        invariant
            i <= tokens@.len(),
            toks == strings_view(tokens@),
            whole == fdf_pairs(toks, 0),
            whole == pairs_text(fields@) + fdf_pairs(toks, i as int),
        decreases tokens.len() - i,
    {
        let is_t = crate::text::str_eq(tokens[i].as_str(), "/T");
        if is_t && tokens.len() - i > 2 {
            let end = if tokens.len() - i < 10 { tokens.len() } else { i + 10 };
            let mut j = i + 2;
            let mut found: Option<usize> = None;
            while j < end && found.is_none()
                invariant
                    i + 2 <= j <= end, end <= tokens@.len(), toks == strings_view(tokens@),
                    match found {
                        None => first_v(toks, i + 2, end as int) == first_v(toks, j as int, end as int),
                        Some(k) => first_v(toks, i + 2, end as int) == Some(k as int) && k + 1 < tokens@.len() && k == j,
                    },
                decreases end - j + (if found is None { 1int } else { 0int }),
            {
                if crate::text::str_eq(tokens[j].as_str(), "/V") && j + 1 < tokens.len() {
                    found = Some(j);
                } else {
                    j += 1;
                }
            }
            proof {
                assert(toks[i as int] == tokens@[i as int]@);
            }
            match found {
                Some(j) => {
                    let name = unescape_pdf_string(tokens[i + 1].as_str());
                    let value = unescape_pdf_string(tokens[j + 1].as_str());
                    let ghost before = fields@;
                    fields.push((name, value));
                    proof {
                        assert(pairs_text(fields@) =~= pairs_text(before).push((unescaped(toks[i + 1]), unescaped(toks[j + 1]))));
                        assert(whole =~= pairs_text(fields@) + fdf_pairs(toks, j + 1));
                    }
                    i = j + 1;
                }
                None => {
                    i += 1;
                }
            }
        } else {
            i += 1;
        }
    }
    proof { assert(whole =~= pairs_text(fields@)); }
    fields
}

/// The first occurrence of `needle` in `d` at or after `k`.
pub open spec fn find_sub_from(d: Seq<u8>, k: int, needle: Seq<u8>) -> Option<int>
    decreases d.len() - k,
{
    if k < 0 || k + needle.len() > d.len() {
        None
    } else if d.subrange(k, k + needle.len()) == needle {
        Some(k)
    } else if k >= d.len() {
        None
    } else {
        find_sub_from(d, k + 1, needle)
    }
}

/// The first occurrence of `needle` from `start`; none when `start` is at
/// or past the end.
pub open spec fn find_sub(d: Seq<u8>, start: int, needle: Seq<u8>) -> Option<int> {
    if start >= d.len() { None } else { find_sub_from(d, start, needle) }
}

/// The first position of byte `b` at or after `k`.
pub open spec fn find_byte_from(d: Seq<u8>, k: int, b: u8) -> Option<int>
    decreases d.len() - k,
{
    if k < 0 || k >= d.len() {
        None
    } else if d[k] == b {
        Some(k)
    } else {
        find_byte_from(d, k + 1, b)
    }
}

pub proof fn lemma_find_sub_from(d: Seq<u8>, k: int, needle: Seq<u8>)
    requires 0 <= k,
    ensures find_sub_from(d, k, needle) matches Some(x) ==> k <= x && x + needle.len() <= d.len()
        && d.subrange(x, x + needle.len()) == needle,
    decreases d.len() - k,
{
    if k + needle.len() <= d.len() && d.subrange(k, k + needle.len()) != needle && k < d.len() {
        lemma_find_sub_from(d, k + 1, needle);
    }
}

pub proof fn lemma_find_byte_from(d: Seq<u8>, k: int, b: u8)
    requires 0 <= k,
    ensures find_byte_from(d, k, b) matches Some(x) ==> k <= x < d.len(),
    decreases d.len() - k,
{
    if k < d.len() && d[k] != b {
        lemma_find_byte_from(d, k + 1, b);
    }
}

/// The first occurrence of `needle` in `data` from `start` (see `find_sub`).
pub fn find_substring(data: &[u8], start: usize, needle: &[u8]) -> (r: Option<usize>)
    requires needle@.len() > 0,
    ensures r == (match find_sub(data@, start as int, needle@) { Some(x) => Some(x as usize), None => None }),
{
    if start >= data.len() {
        return None;
    }
    let mut k = start;
    while k < data.len() && needle.len() <= data.len() - k
        invariant
            start <= k <= data@.len(),
            find_sub_from(data@, start as int, needle@) == find_sub_from(data@, k as int, needle@),
        decreases data.len() - k,
    {
        if crate::bytes::starts_with_at(data, k, needle) {
            return Some(k);
        }
        k += 1;
    }
    None
}

/// The first position of `byte` in `data` from `start`.
pub fn find_byte(data: &[u8], start: usize, byte: u8) -> (r: Option<usize>)
    ensures r == (match find_byte_from(data@, start as int, byte) { Some(x) => Some(x as usize), None => None }),
{
    let mut k = start;
    while k < data.len()
        invariant
            start <= k,
            find_byte_from(data@, start as int, byte) == find_byte_from(data@, k as int, byte),
        decreases data.len() - k,
    {
        if data[k] == byte {
            return Some(k);
        }
        k += 1;
    }
    None
}

pub proof fn lemma_tag_lengths()
    ensures field_tag().len() == 13, value_tag().len() == 7, value_end_tag().len() == 8,
{
    reveal_strlit("<field name=\"");
    reveal_strlit("<value>");
    reveal_strlit("</value>");
    vstd::string::is_ascii_spec_bytes("<field name=\"");
    vstd::string::is_ascii_spec_bytes("<value>");
    vstd::string::is_ascii_spec_bytes("</value>");
}

pub open spec fn field_tag() -> Seq<u8> {
    lit("<field name=\"")
}

pub open spec fn value_tag() -> Seq<u8> {
    lit("<value>")
}

pub open spec fn value_end_tag() -> Seq<u8> {
    lit("</value>")
}

/// The name/value pairs of XFDF bytes from `pos`: a `<field name="...">`
/// names the text between the next `<value>` and `</value>`; both are read
/// as UTF-8 (lossily) with XML entities decoded.
pub open spec fn xfdf_pairs(d: Seq<u8>, pos: int) -> Seq<(Seq<char>, Seq<char>)>
    decreases d.len() - pos,
{
    if pos < 0 || pos >= d.len() {
        Seq::empty()
    } else {
        match find_sub(d, pos, field_tag()) {
            None => Seq::empty(),
            Some(start) => {
                proof { lemma_find_sub_from(d, pos, field_tag()); lemma_tag_lengths(); }
                let aa = start + field_tag().len();
                match find_byte_from(d, aa, 0x22) {
                    None => xfdf_pairs(d, start + 1),
                    Some(ea) => {
                        proof { lemma_find_byte_from(d, aa, 0x22); }
                        match find_sub(d, ea, value_tag()) {
                            None => xfdf_pairs(d, ea + 1),
                            Some(vs) => {
                                proof { lemma_find_sub_from(d, ea, value_tag()); }
                                let av = vs + value_tag().len();
                                match find_sub(d, av, value_end_tag()) {
                                    None => xfdf_pairs(d, ea + 1),
                                    Some(ve) => {
                                        proof { lemma_find_sub_from(d, av, value_end_tag()); }
                                        seq![(decode_entities(utf8_lossy(d.subrange(aa, ea))),
                                            decode_entities(utf8_lossy(d.subrange(av, ve))))]
                                            + xfdf_pairs(d, ve + value_end_tag().len())
                                    },
                                }
                            },
                        }
                    },
                }
            },
        }
    }
}

/// The name/value pairs of XFDF data; none when it is not UTF-8.
pub open spec fn xfdf_data_pairs(data: Seq<u8>) -> Seq<(Seq<char>, Seq<char>)> {
    match utf8_text(data) {
        Some(_) => xfdf_pairs(data, 0),
        None => Seq::empty(),
    }
}

fn lossy_range(d: &[u8], a: usize, b: usize) -> (r: String)
    requires a <= b <= d@.len(),
    ensures r@ == utf8_lossy(d@.subrange(a as int, b as int)),
{
    let v = crate::bytes::copy_range(d, a, b);
    from_utf8_lossy(v.as_slice())
}

/// The name/value pairs of XFDF data (see `xfdf_data_pairs`).
pub fn parse_xfdf_fields(data: &[u8]) -> (r: Vec<(String, String)>)
    ensures pairs_text(r@) == xfdf_data_pairs(data@),
{
    let mut fields: Vec<(String, String)> = Vec::new();
    match from_utf8_strict(data) {
        Some(_) => {}
        None => {
            proof { assert(pairs_text(fields@) =~= Seq::<(Seq<char>, Seq<char>)>::empty()); }
            return fields;
        }
    }
    proof { lemma_tag_lengths(); }
    let ghost d = data@;
    let ghost whole = xfdf_pairs(d, 0);
    let mut pos: usize = 0;
    while pos < data.len()
        invariant
            d == data@,
            whole == xfdf_pairs(d, 0),
            whole == pairs_text(fields@) + xfdf_pairs(d, pos as int),
            field_tag().len() == 13, value_tag().len() == 7, value_end_tag().len() == 8,
        ensures whole == pairs_text(fields@),
        decreases data.len() - pos,
    {
        let start = match find_substring(data, pos, "<field name=\"".as_bytes()) {
            Some(s) => s,
            None => {
                proof { assert(whole =~= pairs_text(fields@)); }
                break;
            }
        };
        proof { lemma_find_sub_from(d, pos as int, field_tag()); }
        let after_attr = start + 13;
        match find_byte(data, after_attr, 0x22) {
            Some(end_attr) => {
                proof { lemma_find_byte_from(d, after_attr as int, 0x22); }
                match find_substring(data, end_attr, "<value>".as_bytes()) {
                    Some(val_start) => {
                        proof { lemma_find_sub_from(d, end_attr as int, value_tag()); }
                        let after_val = val_start + 7;
                        match find_substring(data, after_val, "</value>".as_bytes()) {
                            Some(val_end) => {
                                proof { lemma_find_sub_from(d, after_val as int, value_end_tag()); }
                                let name = lossy_range(data, after_attr, end_attr);
                                let value = lossy_range(data, after_val, val_end);
                                let ghost before = fields@;
                                fields.push((decode_xml_entities(name.as_str()), decode_xml_entities(value.as_str())));
                                proof {
                                    assert(pairs_text(fields@) =~= pairs_text(before).push((
                                        decode_entities(utf8_lossy(d.subrange(after_attr as int, end_attr as int))),
                                        decode_entities(utf8_lossy(d.subrange(after_val as int, val_end as int))))));
                                    assert(whole =~= pairs_text(fields@) + xfdf_pairs(d, val_end + 8));
                                }
                                pos = val_end + 8;
                            }
                            None => {
                                pos = end_attr + 1;
                            }
                        }
                    }
                    None => {
                        pos = end_attr + 1;
                    }
                }
            }
            None => {
                pos = start + 1;
            }
        }
    }
    fields
}

/// The store after setting field `field_id`'s value to `v` and marking
/// the form (named by the catalog `cat`) as needing appearances; `f` is the
/// store before.
pub open spec fn after_value_set(f: spec_fn(ObjectId) -> Option<CosValue>, cat: Option<ObjectId>, field_id: ObjectId,
    v: Seq<u8>) -> spec_fn(ObjectId) -> Option<CosValue>
{
    let mid = |q: ObjectId| if q == field_id { with_entry(f(q), lit("V"), CosValue::Str(v)) } else { f(q) };
    let acro = match cat {
        Some(c) => match mid(c) {
            Some(CosValue::Dict(cd)) => match dict_lookup(cd, lit("AcroForm")) {
                Some(CosValue::Ref(n, g)) => Some(ObjectId { object_number: n, generation: g }),
                _ => None,
            },
            _ => None,
        },
        None => None,
    };
    |q: ObjectId| if Some(q) == acro { with_entry(mid(q), lit("NeedAppearances"), CosValue::Bool(true)) } else { mid(q) }
}

/// The store after setting each field of `ups` to its value, in order.
pub open spec fn after_values_set(f: spec_fn(ObjectId) -> Option<CosValue>, cat: Option<ObjectId>,
    ups: Seq<(ObjectId, Seq<char>)>) -> spec_fn(ObjectId) -> Option<CosValue>
    decreases ups.len(),
{
    if ups.len() == 0 {
        f
    } else {
        after_value_set(after_values_set(f, cat, ups.drop_last()), cat, ups.last().0, vstd::utf8::encode_utf8(ups.last().1))
    }
}

/// The last of the form's fields whose (non-empty) name is `name`.
pub open spec fn field_for(ff: Seq<(ObjectId, Seq<(Seq<u8>, CosValue)>)>, name: Seq<char>) -> Option<ObjectId>
    decreases ff.len(),
{
    if ff.len() == 0 {
        None
    } else if field_name(ff.last().1).len() > 0 && field_name(ff.last().1) == name {
        Some(ff.last().0)
    } else {
        field_for(ff.drop_last(), name)
    }
}

/// The pairs whose name is a field's, as that field and the value, in order.
pub open spec fn updates(pairs: Seq<(Seq<char>, Seq<char>)>, ff: Seq<(ObjectId, Seq<(Seq<u8>, CosValue)>)>) -> Seq<(ObjectId, Seq<char>)>
    decreases pairs.len(),
{
    if pairs.len() == 0 {
        Seq::empty()
    } else {
        updates(pairs.drop_last(), ff) + match field_for(ff, pairs.last().0) {
            Some(id) => seq![(id, pairs.last().1)],
            None => Seq::empty(),
        }
    }
}

/// The field updates of importing `pairs` into `doc`; none without a form.
pub open spec fn import_updates(pairs: Seq<(Seq<char>, Seq<char>)>, doc: Document) -> Seq<(ObjectId, Seq<char>)> {
    match acro_form_dict(doc) {
        Some(d) => updates(pairs, form_fields(d, doc.objects@)),
        None => Seq::empty(),
    }
}

pub open spec fn store_fn(doc: Document) -> spec_fn(ObjectId) -> Option<CosValue> {
    |q: ObjectId| store_find(doc.objects@, q)
}

/// `doc` after importing `pairs` into `old`, and `n` the number of fields set.
pub open spec fn imported(old: Document, doc: Document, pairs: Seq<(Seq<char>, Seq<char>)>, n: usize) -> bool {
    let ups = import_updates(pairs, old);
    &&& n == ups.len()
    &&& doc.xref.trailer@ == old.xref.trailer@
    &&& forall|q: ObjectId| #[trigger] store_find(doc.objects@, q) == after_values_set(store_fn(old), old.catalog_id_spec(), ups)(q)
}

/// Sets each pair's value on the field of that name (the last such field);
/// the number of values set.
fn apply_pairs(doc: &mut Document, pairs: &Vec<(String, String)>) -> (r: usize)
    ensures imported(*old(doc), *final(doc), pairs_text(pairs@), r),
{
    let ghost d0 = *doc;
    let ghost ps = pairs_text(pairs@);
    let mut named: Vec<(String, ObjectId)> = Vec::new();
    let ghost ff: Seq<(ObjectId, Seq<(Seq<u8>, CosValue)>)>;
    match doc.acro_form() {
        Some(form) => {
            let fields = form.fields();
            proof { ff = form_fields(form.dict@, form.store@); }
            let mut i: usize = 0;
            while i < fields.len()
                invariant
                    i <= fields@.len(),
                    fields@.len() == ff.len(),
                    ff == form_fields(form.dict@, form.store@),
                    forall|k: int| 0 <= k < fields@.len() ==> field_is(#[trigger] fields@[k], ff[k]),
                    named@.len() <= i,
                    forall|nm: Seq<char>| #[trigger] field_for(ff.take(i as int), nm) == last_named(named@, nm),
                decreases fields.len() - i,
            {
                proof {
                    assert(ff.take(i + 1).drop_last() =~= ff.take(i as int));
                    assert(field_is(fields@[i as int], ff[i as int]));
                }
                let name = fields[i].fully_qualified_name();
                let ghost nv = name@;
                proof {
                    assert(ff.take(i + 1).last() == ff[i as int]);
                    assert(nv == field_name(ff[i as int].1));
                }
                if str_chars(name.as_str()).len() != 0 {
                    let id = fields[i].id();
                    let ghost before = named@;
                    named.push((name, id));
                    proof {
                        assert(named@.drop_last() =~= before);
                        assert(named@.last().0@ == nv && named@.last().1 == ff[i as int].0);
                        assert forall|nm: Seq<char>| #[trigger] field_for(ff.take(i + 1), nm) == last_named(named@, nm) by {
                            if nm != nv {
                                assert(field_for(ff.take(i + 1), nm) == field_for(ff.take(i as int), nm));
                                assert(last_named(named@, nm) == last_named(before, nm));
                            }
                        }
                    }
                } else {
                    proof {
                        assert forall|nm: Seq<char>| #[trigger] field_for(ff.take(i + 1), nm) == last_named(named@, nm) by {
                            assert(field_for(ff.take(i + 1), nm) == field_for(ff.take(i as int), nm));
                        }
                    }
                }
                i += 1;
            }
            proof { assert(ff.take(ff.len() as int) =~= ff); }
        }
        None => {
            proof {
                ff = Seq::empty();
                assert forall|nm: Seq<char>| #[trigger] field_for(ff, nm) == last_named(named@, nm) by {}
            }
        }
    }
    let ghost ups_all = import_updates(ps, d0);
    let ghost cat = d0.catalog_id_spec();
    let mut imported_count: usize = 0;
    let mut i: usize = 0;
    while i < pairs.len()
        invariant
            i <= pairs@.len(),
            ps == pairs_text(pairs@),
            forall|nm: Seq<char>| #[trigger] field_for(ff, nm) == last_named(named@, nm),
            acro_form_dict(d0) is Some ==> ff == form_fields(acro_form_dict(d0)->Some_0, d0.objects@),
            acro_form_dict(d0) is None ==> ff.len() == 0,
            imported_count as int == updates(ps.take(i as int), ff).len(),
            imported_count <= i,
            doc.xref.trailer@ == d0.xref.trailer@,
            doc.catalog_id_spec() == cat,
            forall|q: ObjectId| #[trigger] store_find(doc.objects@, q) == after_values_set(store_fn(d0), cat, updates(ps.take(i as int), ff))(q),
        decreases pairs.len() - i,
    {
        proof { assert(ps.take(i + 1).drop_last() =~= ps.take(i as int)); }
        let target = lookup_last(&named, pairs[i].0.as_str());
        match target {
            Some(id) => {
                let ghost before = *doc;
                let ghost done = updates(ps.take(i as int), ff);
                let value: &str = pairs[i].1.as_str();
                set_field_value(doc, id, value);
                proof {
                    let f = after_values_set(store_fn(d0), cat, done);
                    assert(store_fn(before) =~= f);
                    assert(updates(ps.take(i + 1), ff) =~= done.push((id, ps[i as int].1)));
                    assert(done.push((id, ps[i as int].1)).drop_last() =~= done);
                    assert(lit(value) == vstd::utf8::encode_utf8(ps[i as int].1));
                    assert(after_values_set(store_fn(d0), cat, done.push((id, ps[i as int].1))) == after_value_set(f, cat, id, lit(value)));
                    assert forall|q: ObjectId| #[trigger] store_find(doc.objects@, q)
                        == after_values_set(store_fn(d0), cat, updates(ps.take(i + 1), ff))(q) by {
                        assert(value_set_find(before.objects@, id, lit(value), q) == (if q == id {
                            with_entry(f(q), lit("V"), CosValue::Str(lit(value))) } else { f(q) }));
                    }
                }
                imported_count += 1;
            }
            None => {
                proof { assert(updates(ps.take(i + 1), ff) =~= updates(ps.take(i as int), ff)); }
            }
        }
        i += 1;
    }
    proof {
        assert(ps.take(ps.len() as int) =~= ps);
        if acro_form_dict(d0) is None {
            lemma_updates_no_fields(ps, ff);
            assert(updates(ps, ff) =~= import_updates(ps, d0));
        }
    }
    imported_count
}

proof fn lemma_updates_no_fields(ps: Seq<(Seq<char>, Seq<char>)>, ff: Seq<(ObjectId, Seq<(Seq<u8>, CosValue)>)>)
    requires ff.len() == 0,
    ensures updates(ps, ff).len() == 0,
    decreases ps.len(),
{
    if ps.len() > 0 {
        lemma_updates_no_fields(ps.drop_last(), ff);
    }
}

/// The id of the last entry named `nm`.
pub open spec fn last_named(v: Seq<(String, ObjectId)>, nm: Seq<char>) -> Option<ObjectId>
    decreases v.len(),
{
    if v.len() == 0 {
        None
    } else if v.last().0@ == nm {
        Some(v.last().1)
    } else {
        last_named(v.drop_last(), nm)
    }
}

fn lookup_last(named: &Vec<(String, ObjectId)>, name: &str) -> (r: Option<ObjectId>)
    ensures r == last_named(named@, name@),
{
    let mut i = named.len();
    proof { assert(named@.take(named@.len() as int) =~= named@); }
    while i > 0
        invariant i <= named@.len(), last_named(named@, name@) == last_named(named@.take(i as int), name@),
        decreases i,
    {
        proof { assert(named@.take(i as int).drop_last() =~= named@.take(i - 1)); }
        if crate::text::str_eq(named[i - 1].0.as_str(), name) {
            return Some(named[i - 1].1);
        }
        i -= 1;
    }
    None
}

/// The pairs an FDF import reads: none for empty data or data not starting
/// with `%FDF`.
pub open spec fn fdf_import_pairs(data: Seq<u8>) -> Seq<(Seq<char>, Seq<char>)> {
    if data.len() == 0 || !(data.len() >= 4 && data.take(4) == lit("%FDF")) {
        Seq::empty()
    } else {
        fdf_data_pairs(data)
    }
}

/// Imports FDF form data: each field named in it gets its value (see
/// `imported`); the number of values set.
pub fn import_fdf(doc: &mut Document, fdf_data: &[u8]) -> (r: PdfResult<usize>)
    ensures r matches Ok(n) && imported(*old(doc), *final(doc), fdf_import_pairs(fdf_data@), n),
{
    proof {
        reveal_strlit("%FDF");
        vstd::string::is_ascii_spec_bytes("%FDF");
    }
    if fdf_data.len() == 0 || !crate::bytes::starts_with(fdf_data, "%FDF".as_bytes()) {
        let ghost ps = fdf_import_pairs(fdf_data@);
        proof {
            assert(ps.len() == 0);
            lemma_no_updates(ps, *doc);
            assert(store_fn(*doc) =~= after_values_set(store_fn(*doc), doc.catalog_id_spec(), import_updates(ps, *doc)));
        }
        return Ok(0);
    }
    let fields = parse_fdf_fields(fdf_data);
    proof { assert(fdf_data@.take(4) == lit("%FDF")); }
    let n = apply_pairs(doc, &fields);
    Ok(n)
}

proof fn lemma_no_updates(ps: Seq<(Seq<char>, Seq<char>)>, doc: Document)
    requires ps.len() == 0,
    ensures import_updates(ps, doc).len() == 0,
{
}

/// The pairs an XFDF import reads: none for empty data.
pub open spec fn xfdf_import_pairs(data: Seq<u8>) -> Seq<(Seq<char>, Seq<char>)> {
    if data.len() == 0 { Seq::empty() } else { xfdf_data_pairs(data) }
}

/// Imports XFDF form data: each field named in it gets its value (see
/// `imported`); the number of values set.
pub fn import_xfdf(doc: &mut Document, xfdf_data: &[u8]) -> (r: PdfResult<usize>)
    ensures r matches Ok(n) && imported(*old(doc), *final(doc), xfdf_import_pairs(xfdf_data@), n),
{
    if xfdf_data.len() == 0 {
        proof {
            lemma_no_updates(xfdf_import_pairs(xfdf_data@), *doc);
            assert(store_fn(*doc) =~= after_values_set(store_fn(*doc), doc.catalog_id_spec(), import_updates(xfdf_import_pairs(xfdf_data@), *doc)));
        }
        return Ok(0);
    }
    let fields = parse_xfdf_fields(xfdf_data);
    let n = apply_pairs(doc, &fields);
    Ok(n)
}

/// XML text with its entities (`&amp; &lt; &gt; &quot; &apos;`) decoded.
pub fn xml_unescape(s: &str) -> (r: String)
    ensures r@ == decode_entities(s@),
{
    decode_xml_entities(s)
}

proof fn lemma_escaped_concat(a: Seq<char>, b: Seq<char>)
    ensures pdf_escaped(a + b) == pdf_escaped(a) + pdf_escaped(b),
    decreases b.len(),
{
    if b.len() == 0 {
        assert(a + b =~= a);
        assert(pdf_escaped(a) + pdf_escaped(b) =~= pdf_escaped(a));
    } else {
        lemma_escaped_concat(a, b.drop_last());
        assert((a + b).drop_last() =~= a + b.drop_last());
        assert((a + b).last() == b.last());
        assert(pdf_escaped(a + b) =~= pdf_escaped(a) + pdf_escaped(b));
    }
}

/// Reading escapes from position `p.len() + i` of `p + q` is reading them
/// from `i` of `q`.
proof fn lemma_unesc_shift(p: Seq<char>, q: Seq<char>, i: int)
    requires 0 <= i,
    ensures unesc_from(p + q, p.len() + i) == unesc_from(q, i),
    decreases q.len() - i,
{
    let x = p + q;
    let k = p.len() + i;
    if i >= q.len() {
    } else {
        assert(x[k] == q[i]);
        if q[i] != '\\' {
            lemma_unesc_shift(p, q, i + 1);
        } else if i + 1 >= q.len() {
        } else {
            assert(x[k + 1] == q[i + 1]);
            let d = q[i + 1];
            if d == 'n' || d == 'r' || d == 't' {
                lemma_unesc_shift(p, q, i + 2);
            } else if is_digit(d) {
                let (ds, next) = octal_digits(q, i + 1);
                if i + 2 < q.len() {
                    assert(x[k + 2] == q[i + 2]);
                }
                if i + 3 < q.len() {
                    assert(x[k + 3] == q[i + 3]);
                }
                assert(octal_digits(x, k + 1) == (ds, p.len() + next));
                lemma_unesc_shift(p, q, next);
            } else {
                lemma_unesc_shift(p, q, i + 2);
            }
        }
    }
}

proof fn lemma_unesc_escaped(s: Seq<char>)
    ensures unesc_from(pdf_escaped(s), 0) == s,
    decreases s.len(),
{
    if s.len() > 0 {
        let c = s[0];
        let rest = s.drop_first();
        assert(s =~= seq![c] + rest);
        lemma_escaped_concat(seq![c], rest);
        assert(seq![c].drop_last() =~= Seq::<char>::empty());
        assert(seq![c].last() == c);
        assert(pdf_escaped(Seq::<char>::empty()) == Seq::<char>::empty());
        assert(pdf_escaped(seq![c]) == pdf_escaped(Seq::<char>::empty()) + pdf_escape_char(c));
        assert(pdf_escaped(seq![c]) =~= pdf_escape_char(c));
        let e = pdf_escape_char(c);
        let re = pdf_escaped(rest);
        lemma_unesc_escaped(rest);
        reveal_strlit("\\(");
        reveal_strlit("\\)");
        reveal_strlit("\\\\");
        reveal_strlit("\\n");
        reveal_strlit("\\r");
        reveal_strlit("\\t");
        let x = e + re;
        lemma_unesc_shift(e, re, 0);
        if e.len() == 1 {
            assert(e == seq![c]);
            assert(x[0] == c && c != '\\');
            assert(unesc_from(x, 0) == seq![c] + unesc_from(x, 1));
        } else {
            assert(e.len() == 2 && e[0] == '\\');
            assert(x[0] == '\\' && x[1] == e[1]);
            assert(unesc_from(x, 0) =~= seq![c] + unesc_from(x, 2));
        }
        assert(unesc_from(x, 0) =~= s);
    }
}

/// A string written into FDF reads back as itself: the token `(...)` that
/// export writes for the text `s` (its parentheses, backslashes and line
/// breaks escaped) is read by import as `s`.
pub proof fn lemma_pdf_string_round_trip(s: Seq<char>)
    ensures unescaped(seq!['('] + pdf_escaped(s) + seq![')']) == s,
{
    let e = pdf_escaped(s);
    let t = seq!['('] + e + seq![')'];
    assert(t[0] == '(' && !is_ws(t[0]));
    assert(ws_lead(t, 0) == 0);
    assert(t[t.len() - 1] == ')' && !is_ws(t[t.len() - 1]));
    assert(ws_trail(t, t.len() as int) == t.len());
    assert(trimmed(t) =~= t);
    assert(unparen(t) =~= e);
    lemma_unesc_escaped(s);
}

} // verus!

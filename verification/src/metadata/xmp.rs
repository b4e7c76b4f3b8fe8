//! XMP metadata packets: reading the common Dublin Core / XMP / PDF
//! properties out of the XML text, and writing a basic packet.

use vstd::prelude::*;
use vstd::string::StrSliceExecFns;
use crate::text::{from_utf8_strict, push_char, push_str, str_chars, string_from_chars, utf8_text};

verus! {

// ---------------------------------------------------------------------------
// Text operations on characters
// ---------------------------------------------------------------------------

/// `char::is_whitespace`: the Unicode `White_Space` characters.
pub open spec fn is_ws_char(c: char) -> bool {
    let v = c as u32;
    (0x09 <= v <= 0x0d) || v == 0x20 || v == 0x85 || v == 0xa0 || v == 0x1680 || (0x2000 <= v <= 0x200a)
        || v == 0x2028 || v == 0x2029 || v == 0x202f || v == 0x205f || v == 0x3000
}

fn ws_char(c: char) -> (r: bool)
    ensures r == is_ws_char(c),
{
    let v = c as u32;
    (0x09 <= v && v <= 0x0d) || v == 0x20 || v == 0x85 || v == 0xa0 || v == 0x1680 || (0x2000 <= v && v <= 0x200a)
        || v == 0x2028 || v == 0x2029 || v == 0x202f || v == 0x205f || v == 0x3000
}

/// First index of `s[a..b]` that is not white space (or `b`).
pub open spec fn skip_ws(s: Seq<char>, a: int, b: int) -> int
    decreases b - a,
{
    if a >= b || !is_ws_char(s[a]) { a } else { skip_ws(s, a + 1, b) }
}

/// End of `s[a..b]` without trailing white space.
pub open spec fn skip_ws_back(s: Seq<char>, a: int, b: int) -> int
    decreases b - a,
{
    if b <= a || !is_ws_char(s[b - 1]) { b } else { skip_ws_back(s, a, b - 1) }
}

/// First index `j >= i` where `p` occurs in `s`.
pub open spec fn find_from(s: Seq<char>, p: Seq<char>, i: int) -> Option<int>
    decreases s.len() - i,
{
    if i < 0 || i + p.len() > s.len() {
        None
    } else if s.subrange(i, i + p.len()) == p {
        Some(i)
    } else if i >= s.len() {
        None
    } else {
        find_from(s, p, i + 1)
    }
}

/// `s` with each occurrence of `p` (left to right, not overlapping)
/// replaced by `r` (`str::replace`).
pub open spec fn replace_all(s: Seq<char>, p: Seq<char>, r: Seq<char>) -> Seq<char>
    decreases s.len(),
{
    if s.len() == 0 {
        s
    } else if 0 < p.len() <= s.len() && s.take(p.len() as int) == p {
        r + replace_all(s.skip(p.len() as int), p, r)
    } else {
        seq![s[0]] + replace_all(s.skip(1), p, r)
    }
}

fn trim_bounds(s: &Vec<char>, a: usize, b: usize) -> (r: (usize, usize))
    requires a <= b <= s@.len(),
    ensures
        r.0 == skip_ws(s@, a as int, b as int),
        r.1 == skip_ws_back(s@, r.0 as int, b as int),
        a <= r.0 <= r.1 <= b,
{
    let mut x = a;
    while x < b && ws_char(s[x])
        invariant a <= x <= b <= s@.len(), skip_ws(s@, x as int, b as int) == skip_ws(s@, a as int, b as int),
        decreases b - x,
    {
        x += 1;
    }
    let mut y = b;
    while y > x && ws_char(s[y - 1])
        invariant x <= y <= b <= s@.len(), skip_ws_back(s@, x as int, y as int) == skip_ws_back(s@, x as int, b as int),
        decreases y - x,
    {
        y -= 1;
    }
    (x, y)
}

fn matches_at(s: &Vec<char>, p: &Vec<char>, i: usize) -> (r: bool)
    requires i + p@.len() <= s@.len(),
    ensures r == (s@.subrange(i as int, i + p@.len()) == p@),
{
    let n = s.len();
    let mut k: usize = 0;
    while k < p.len()
        invariant
            n == s@.len(),
            i + p@.len() <= s@.len(),
            k <= p@.len(),
            forall|j: int| 0 <= j < k ==> s@[i + j] == p@[j],
        decreases p.len() - k,
    {
        if s[i + k] != p[k] {
            assert(s@.subrange(i as int, i + p@.len())[k as int] != p@[k as int]);
            return false;
        }
        k += 1;
    }
    assert(s@.subrange(i as int, i + p@.len()) =~= p@);
    true
}

fn find_chars(s: &Vec<char>, p: &Vec<char>, from: usize) -> (r: Option<usize>)
    ensures
        match r {
            Some(i) => find_from(s@, p@, from as int) == Some(i as int),
            None => find_from(s@, p@, from as int) is None,
        },
{
    if p.len() > s.len() || from > s.len() - p.len() {
        return None;
    }
    let last = s.len() - p.len();
    let mut i = from;
    while i < last && !matches_at(s, p, i)
        invariant
            from <= i <= last,
            last + p@.len() == s@.len(),
            find_from(s@, p@, i as int) == find_from(s@, p@, from as int),
        decreases last - i,
    {
        i += 1;
    }
    if i < last || matches_at(s, p, i) {
        Some(i)
    } else {
        proof {
            assert(s@.subrange(i as int, i + p@.len()) != p@);
            if p@.len() == 0 {
                assert(s@.subrange(i as int, i + p@.len()) =~= p@);
            }
            assert(find_from(s@, p@, i + 1) is None);
        }
        None
    }
}

fn replace_chars(s: &Vec<char>, p: &str, r: &str) -> (out: Vec<char>)
    requires p@.len() > 0,
    ensures out@ == replace_all(s@, p@, r@),
{
    let pc = str_chars(p);
    let rc = str_chars(r);
    let mut out: Vec<char> = Vec::new();
    let mut i: usize = 0;
    proof { assert(s@.skip(0) =~= s@); }
    while i < s.len()
        invariant
            i <= s@.len(),
            pc@ == p@,
            rc@ == r@,
            p@.len() > 0,
            out@ + replace_all(s@.skip(i as int), p@, r@) == replace_all(s@, p@, r@),
        decreases s.len() - i,
    {
        let ghost rest = s@.skip(i as int);
        let ghost before = out@;
        if pc.len() <= s.len() - i && matches_at(s, &pc, i) {
            proof {
                assert(rest.take(p@.len() as int) =~= s@.subrange(i as int, i + p@.len()));
                assert(rest.skip(p@.len() as int) =~= s@.skip(i + p@.len()));
            }
            let mut k: usize = 0;
            while k < rc.len()
                invariant k <= rc@.len(), out@ == before + rc@.take(k as int),
                decreases rc.len() - k,
            {
                out.push(rc[k]);
                proof { assert(out@ =~= before + rc@.take(k + 1)); }
                k += 1;
            }
            proof {
                assert(rc@.take(rc@.len() as int) =~= rc@);
                assert(before + (r@ + replace_all(s@.skip(i + p@.len()), p@, r@))
                    =~= out@ + replace_all(s@.skip(i + p@.len()), p@, r@));
            }
            i = i + pc.len();
        } else {
            proof {
                if p@.len() <= rest.len() {
                    assert(rest.take(p@.len() as int) =~= s@.subrange(i as int, i + p@.len()));
                }
                assert(rest.skip(1) =~= s@.skip(i + 1));
                assert(rest[0] == s@[i as int]);
            }
            out.push(s[i]);
            proof {
                assert(before + (seq![s@[i as int]] + replace_all(s@.skip(i + 1), p@, r@))
                    =~= out@ + replace_all(s@.skip(i + 1), p@, r@));
            }
            i += 1;
        }
    }
    proof { assert(out@ + replace_all(s@.skip(i as int), p@, r@) =~= out@); }
    out
}

// ---------------------------------------------------------------------------
// Reading tags
// ---------------------------------------------------------------------------

/// Where the content of the first `<tag ...>...</tag>` element lies: after
/// the `>` that ends the first `<tag`, up to the first `</tag>` after it.
pub open spec fn tag_body_range(xml: Seq<char>, tag: Seq<char>) -> Option<(int, int)> {
    match find_from(xml, seq!['<'] + tag, 0) {
        None => None,
        Some(op) => match find_from(xml, seq!['>'], op) {
            None => None,
            Some(oe) => match find_from(xml, seq!['<', '/'] + tag + seq!['>'], oe + 1) {
                None => None,
                Some(ce) => Some((oe + 1, ce)),
            },
        },
    }
}

pub open spec fn tag_body(xml: Seq<char>, tag: Seq<char>) -> Option<Seq<char>> {
    match tag_body_range(xml, tag) {
        Some(p) => Some(xml.subrange(p.0, p.1)),
        None => None,
    }
}

/// The trimmed text of an element, when it is not empty and holds no `<`.
pub open spec fn tag_text(xml: Seq<char>, tag: Seq<char>) -> Option<Seq<char>> {
    match tag_body(xml, tag) {
        Some(body) => {
            let a = skip_ws(body, 0, body.len() as int);
            let t = body.subrange(a, skip_ws_back(body, a, body.len() as int));
            if t.len() == 0 || t.contains('<') { None } else { Some(t) }
        },
        None => None,
    }
}

/// The text of the first `rdf:li` (or `li`) item inside an element.
pub open spec fn first_li(xml: Seq<char>, parent: Seq<char>) -> Option<Seq<char>> {
    match tag_body(xml, parent) {
        Some(body) => match tag_text(body, "rdf:li"@) {
            Some(t) => Some(t),
            None => tag_text(body, "li"@),
        },
        None => None,
    }
}

/// The five predefined entities decoded, one after the other.
pub open spec fn decode_entities(s: Seq<char>) -> Seq<char> {
    replace_all(replace_all(replace_all(replace_all(replace_all(s, "&amp;"@, "&"@), "&lt;"@, "<"@),
        "&gt;"@, ">"@), "&quot;"@, "\""@), "&apos;"@, "'"@)
}

/// `&`, `<`, `>`, `"` and `'` written as entities.
pub open spec fn escape_text(s: Seq<char>) -> Seq<char> {
    replace_all(replace_all(replace_all(replace_all(replace_all(s, "&"@, "&amp;"@), "<"@, "&lt;"@),
        ">"@, "&gt;"@), "\""@, "&quot;"@), "'"@, "&apos;"@)
}

pub open spec fn opt_map_decode(o: Option<Seq<char>>) -> Option<Seq<char>> {
    match o {
        Some(t) => Some(decode_entities(t)),
        None => None,
    }
}

/// A list-valued Dublin Core property: its first item, else its plain text.
pub open spec fn list_property(xml: Seq<char>, tag: Seq<char>) -> Option<Seq<char>> {
    opt_map_decode(match first_li(xml, tag) {
        Some(t) => Some(t),
        None => tag_text(xml, tag),
    })
}

/// A simple property: the element's text.
pub open spec fn simple_property(xml: Seq<char>, tag: Seq<char>) -> Option<Seq<char>> {
    opt_map_decode(tag_text(xml, tag))
}

fn tag_body_bounds(xs: &Vec<char>, tag: &str) -> (r: Option<(usize, usize)>)
    ensures
        match tag_body_range(xs@, tag@) {
            Some(p) => r is Some && r->Some_0.0 == p.0 && r->Some_0.1 == p.1 && p.0 <= p.1 <= xs@.len(),
            None => r is None,
        },
{
    let tc = str_chars(tag);
    let mut open: Vec<char> = Vec::new();
    open.push('<');
    let mut close: Vec<char> = Vec::new();
    close.push('<');
    close.push('/');
    let mut k: usize = 0;
    while k < tc.len()
        invariant
            k <= tc@.len(),
            open@ == seq!['<'] + tc@.take(k as int),
            close@ == seq!['<', '/'] + tc@.take(k as int),
        decreases tc.len() - k,
    {
        open.push(tc[k]);
        close.push(tc[k]);
        proof {
            assert(open@ =~= seq!['<'] + tc@.take(k + 1));
            assert(close@ =~= seq!['<', '/'] + tc@.take(k + 1));
        }
        k += 1;
    }
    close.push('>');
    proof {
        assert(tc@.take(tc@.len() as int) =~= tc@);
        assert(open@ =~= seq!['<'] + tag@);
        assert(close@ =~= seq!['<', '/'] + tag@ + seq!['>']);
    }
    let mut gt: Vec<char> = Vec::new();
    gt.push('>');
    proof { assert(gt@ =~= seq!['>']); }
    proof {
        lemma_find_from_bounds(xs@, seq!['<'] + tag@, 0);
        match find_from(xs@, seq!['<'] + tag@, 0) {
            Some(op) => {
                lemma_find_from_bounds(xs@, seq!['>'], op);
                match find_from(xs@, seq!['>'], op) {
                    Some(oe) => { lemma_find_from_bounds(xs@, seq!['<', '/'] + tag@ + seq!['>'], oe + 1); }
                    None => {}
                }
            }
            None => {}
        }
    }
    let op = match find_chars(xs, &open, 0) {
        Some(op) => op,
        None => return None,
    };
    let oe = match find_chars(xs, &gt, op) {
        Some(oe) => oe,
        None => return None,
    };
    if oe >= xs.len() {
        return None;
    }
    let ce = match find_chars(xs, &close, oe + 1) {
        Some(ce) => ce,
        None => return None,
    };
    Some((oe + 1, ce))
}

proof fn lemma_find_from_bounds(s: Seq<char>, p: Seq<char>, i: int)
    requires 0 <= i,
    ensures
        match find_from(s, p, i) {
            Some(j) => i <= j && j + p.len() <= s.len(),
            None => true,
        },
    decreases s.len() - i,
{
    if i + p.len() <= s.len() && s.subrange(i, i + p.len()) != p && i < s.len() {
        lemma_find_from_bounds(s, p, i + 1);
    }
}

/// The content of the first `<tag ...>...</tag>` element.
pub fn extract_tag_body<'a>(xml: &'a str, tag: &str) -> (r: Option<&'a str>)
    ensures
        match tag_body(xml@, tag@) {
            Some(t) => r is Some && r->Some_0@ == t,
            None => r is None,
        },
{
    let xs = str_chars(xml);
    match tag_body_bounds(&xs, tag) {
        Some((a, b)) => Some(xml.substring_char(a, b)),
        None => None,
    }
}

fn body_text<'a>(body: &'a str) -> (r: Option<&'a str>)
    ensures
        ({
            let s = body@;
            let a = skip_ws(s, 0, s.len() as int);
            let t = s.subrange(a, skip_ws_back(s, a, s.len() as int));
            if t.len() == 0 || t.contains('<') { r is None } else { r is Some && r->Some_0@ == t }
        }),
{
    let cs = str_chars(body);
    let (a, b) = trim_bounds(&cs, 0, cs.len());
    if a == b {
        return None;
    }
    let mut k = a;
    while k < b
        invariant
            a <= k <= b <= cs@.len(),
            cs@ == body@,
            a == skip_ws(cs@, 0, cs@.len() as int),
            b == skip_ws_back(cs@, a as int, cs@.len() as int),
            forall|j: int| a <= j < k ==> cs@[j] != '<',
        decreases b - k,
    {
        if cs[k] == '<' {
            assert(body@.subrange(a as int, b as int)[k - a] == '<');
            assert(body@.subrange(a as int, b as int).contains('<'));
            return None;
        }
        k += 1;
    }
    proof {
        let t = cs@.subrange(a as int, b as int);
        assert forall|j: int| 0 <= j < t.len() implies t[j] != '<' by {
            assert(t[j] == cs@[a + j]);
        }
    }
    Some(body.substring_char(a, b))
}

/// The trimmed text of the first `<tag>` element, when it is not empty and
/// holds no markup.
pub fn extract_tag_text<'a>(xml: &'a str, tag: &str) -> (r: Option<&'a str>)
    ensures
        match tag_text(xml@, tag@) {
            Some(t) => r is Some && r->Some_0@ == t,
            None => r is None,
        },
{
    match extract_tag_body(xml, tag) {
        Some(body) => body_text(body),
        None => None,
    }
}

/// The text of the first list item of an element.
pub fn extract_first_li<'a>(xml: &'a str, parent_tag: &str) -> (r: Option<&'a str>)
    ensures
        match first_li(xml@, parent_tag@) {
            Some(t) => r is Some && r->Some_0@ == t,
            None => r is None,
        },
{
    match extract_tag_body(xml, parent_tag) {
        Some(body) => match extract_tag_text(body, "rdf:li") {
            Some(t) => Some(t),
            None => extract_tag_text(body, "li"),
        },
        None => None,
    }
}

/// Decodes `&amp;`, `&lt;`, `&gt;`, `&quot;` and `&apos;`, in that order.
pub fn decode_xml_entities(s: &str) -> (r: String)
    ensures r@ == decode_entities(s@),
{
    let c0 = str_chars(s);
    proof {
        reveal_strlit("&amp;");
        reveal_strlit("&lt;");
        reveal_strlit("&gt;");
        reveal_strlit("&quot;");
        reveal_strlit("&apos;");
    }
    let c1 = replace_chars(&c0, "&amp;", "&");
    let c2 = replace_chars(&c1, "&lt;", "<");
    let c3 = replace_chars(&c2, "&gt;", ">");
    let c4 = replace_chars(&c3, "&quot;", "\"");
    let c5 = replace_chars(&c4, "&apos;", "'");
    string_from_chars(c5.as_slice())
}

/// Writes `&`, `<`, `>`, `"` and `'` as entities.
pub fn escape_xml(s: &str) -> (r: String)
    ensures r@ == escape_text(s@),
{
    let c0 = str_chars(s);
    proof {
        reveal_strlit("&");
        reveal_strlit("<");
        reveal_strlit(">");
        reveal_strlit("\"");
        reveal_strlit("'");
    }
    let c1 = replace_chars(&c0, "&", "&amp;");
    let c2 = replace_chars(&c1, "<", "&lt;");
    let c3 = replace_chars(&c2, ">", "&gt;");
    let c4 = replace_chars(&c3, "\"", "&quot;");
    let c5 = replace_chars(&c4, "'", "&apos;");
    string_from_chars(c5.as_slice())
}

fn decoded(o: Option<&str>) -> (r: Option<String>)
    ensures
        match o {
            Some(t) => r is Some && r->Some_0@ == decode_entities(t@),
            None => r is None,
        },
{
    match o {
        Some(t) => Some(decode_xml_entities(t)),
        None => None,
    }
}

fn list_prop(xml: &str, tag: &str) -> (r: Option<String>)
    ensures
        match list_property(xml@, tag@) {
            Some(t) => r is Some && r->Some_0@ == t,
            None => r is None,
        },
{
    match extract_first_li(xml, tag) {
        Some(t) => decoded(Some(t)),
        None => decoded(extract_tag_text(xml, tag)),
    }
}

fn simple_prop(xml: &str, tag: &str) -> (r: Option<String>)
    ensures
        match simple_property(xml@, tag@) {
            Some(t) => r is Some && r->Some_0@ == t,
            None => r is None,
        },
{
    decoded(extract_tag_text(xml, tag))
}

/// `dc:title`: first list item, else the element text; entities decoded.
pub fn extract_dc_title(xml: &str) -> (r: Option<String>)
    ensures
        match list_property(xml@, "dc:title"@) {
            Some(t) => r is Some && r->Some_0@ == t,
            None => r is None,
        },
{
    list_prop(xml, "dc:title")
}

pub fn extract_dc_creator(xml: &str) -> (r: Option<String>)
    ensures
        match list_property(xml@, "dc:creator"@) {
            Some(t) => r is Some && r->Some_0@ == t,
            None => r is None,
        },
{
    list_prop(xml, "dc:creator")
}

pub fn extract_dc_subject(xml: &str) -> (r: Option<String>)
    ensures
        match list_property(xml@, "dc:subject"@) {
            Some(t) => r is Some && r->Some_0@ == t,
            None => r is None,
        },
{
    list_prop(xml, "dc:subject")
}

pub fn extract_pdf_keywords(xml: &str) -> (r: Option<String>)
    ensures
        match simple_property(xml@, "pdf:Keywords"@) {
            Some(t) => r is Some && r->Some_0@ == t,
            None => r is None,
        },
{
    simple_prop(xml, "pdf:Keywords")
}

pub fn extract_xmp_creator_tool(xml: &str) -> (r: Option<String>)
    ensures
        match simple_property(xml@, "xmp:CreatorTool"@) {
            Some(t) => r is Some && r->Some_0@ == t,
            None => r is None,
        },
{
    simple_prop(xml, "xmp:CreatorTool")
}

pub fn extract_pdf_producer(xml: &str) -> (r: Option<String>)
    ensures
        match simple_property(xml@, "pdf:Producer"@) {
            Some(t) => r is Some && r->Some_0@ == t,
            None => r is None,
        },
{
    simple_prop(xml, "pdf:Producer")
}

pub fn extract_xmp_create_date(xml: &str) -> (r: Option<String>)
    ensures
        match simple_property(xml@, "xmp:CreateDate"@) {
            Some(t) => r is Some && r->Some_0@ == t,
            None => r is None,
        },
{
    simple_prop(xml, "xmp:CreateDate")
}

pub fn extract_xmp_modify_date(xml: &str) -> (r: Option<String>)
    ensures
        match simple_property(xml@, "xmp:ModifyDate"@) {
            Some(t) => r is Some && r->Some_0@ == t,
            None => r is None,
        },
{
    simple_prop(xml, "xmp:ModifyDate")
}

// ---------------------------------------------------------------------------
// The packet
// ---------------------------------------------------------------------------

/// An XMP packet: its text and the properties read from it.
#[derive(Debug, Clone)]
pub struct XmpMetadata {
    pub raw_xml: String,
    pub dc_title: Option<String>,
    pub dc_creator: Option<String>,
    pub dc_subject: Option<String>,
    pub pdf_keywords: Option<String>,
    pub xmp_creator_tool: Option<String>,
    pub pdf_producer: Option<String>,
    pub xmp_create_date: Option<String>,
    pub xmp_modify_date: Option<String>,
}

pub open spec fn opt_view(o: Option<String>) -> Option<Seq<char>> {
    match o {
        Some(s) => Some(s@),
        None => None,
    }
}

impl XmpMetadata {
    /// The properties are those read from `raw_xml`.
    pub open spec fn read_from_text(&self) -> bool {
        let x = self.raw_xml@;
        &&& opt_view(self.dc_title) == list_property(x, "dc:title"@)
        &&& opt_view(self.dc_creator) == list_property(x, "dc:creator"@)
        &&& opt_view(self.dc_subject) == list_property(x, "dc:subject"@)
        &&& opt_view(self.pdf_keywords) == simple_property(x, "pdf:Keywords"@)
        &&& opt_view(self.xmp_creator_tool) == simple_property(x, "xmp:CreatorTool"@)
        &&& opt_view(self.pdf_producer) == simple_property(x, "pdf:Producer"@)
        &&& opt_view(self.xmp_create_date) == simple_property(x, "xmp:CreateDate"@)
        &&& opt_view(self.xmp_modify_date) == simple_property(x, "xmp:ModifyDate"@)
    }

    /// Reads a packet from bytes; `None` when they are not UTF-8.
    pub fn from_bytes(bytes: &[u8]) -> (r: Option<XmpMetadata>)
        ensures
            match utf8_text(bytes@) {
                Some(t) => r is Some && r->Some_0.raw_xml@ == t && r->Some_0.read_from_text(),
                None => r is None,
            },
    {
        let raw_xml = match from_utf8_strict(bytes) {
            Some(s) => s,
            None => return None,
        };
        let x = raw_xml.as_str();
        let dc_title = extract_dc_title(x);
        let dc_creator = extract_dc_creator(x);
        let dc_subject = extract_dc_subject(x);
        let pdf_keywords = extract_pdf_keywords(x);
        let xmp_creator_tool = extract_xmp_creator_tool(x);
        let pdf_producer = extract_pdf_producer(x);
        let xmp_create_date = extract_xmp_create_date(x);
        let xmp_modify_date = extract_xmp_modify_date(x);
        Some(XmpMetadata {
            raw_xml,
            dc_title,
            dc_creator,
            dc_subject,
            pdf_keywords,
            xmp_creator_tool,
            pdf_producer,
            xmp_create_date,
            xmp_modify_date,
        })
    }

    pub fn raw_xml(&self) -> (r: &str)
        ensures r@ == self.raw_xml@,
    {
        self.raw_xml.as_str()
    }

    pub fn dc_title(&self) -> (r: Option<&str>)
        ensures opt_str(r) == opt_view(self.dc_title),
    {
        as_deref(&self.dc_title)
    }

    pub fn dc_creator(&self) -> (r: Option<&str>)
        ensures opt_str(r) == opt_view(self.dc_creator),
    {
        as_deref(&self.dc_creator)
    }

    pub fn dc_subject(&self) -> (r: Option<&str>)
        ensures opt_str(r) == opt_view(self.dc_subject),
    {
        as_deref(&self.dc_subject)
    }

    pub fn pdf_keywords(&self) -> (r: Option<&str>)
        ensures opt_str(r) == opt_view(self.pdf_keywords),
    {
        as_deref(&self.pdf_keywords)
    }

    pub fn xmp_creator_tool(&self) -> (r: Option<&str>)
        ensures opt_str(r) == opt_view(self.xmp_creator_tool),
    {
        as_deref(&self.xmp_creator_tool)
    }

    pub fn pdf_producer(&self) -> (r: Option<&str>)
        ensures opt_str(r) == opt_view(self.pdf_producer),
    {
        as_deref(&self.pdf_producer)
    }

    pub fn xmp_create_date(&self) -> (r: Option<&str>)
        ensures opt_str(r) == opt_view(self.xmp_create_date),
    {
        as_deref(&self.xmp_create_date)
    }

    pub fn xmp_modify_date(&self) -> (r: Option<&str>)
        ensures opt_str(r) == opt_view(self.xmp_modify_date),
    {
        as_deref(&self.xmp_modify_date)
    }
}

pub open spec fn opt_str(o: Option<&str>) -> Option<Seq<char>> {
    match o {
        Some(s) => Some(s@),
        None => None,
    }
}

fn as_deref(o: &Option<String>) -> (r: Option<&str>)
    ensures opt_str(r) == opt_view(*o),
{
    match o {
        Some(s) => Some(s.as_str()),
        None => None,
    }
}

/// The properties to write into a new packet.
#[derive(Debug, Clone, Copy)]
pub struct XmpFields<'a> {
    pub title: Option<&'a str>,
    pub creator: Option<&'a str>,
    pub subject: Option<&'a str>,
    pub keywords: Option<&'a str>,
    pub creator_tool: Option<&'a str>,
    pub producer: Option<&'a str>,
    pub create_date: Option<&'a str>,
    pub modify_date: Option<&'a str>,
}

impl<'a> Default for XmpFields<'a> {
    fn default() -> (r: XmpFields<'a>)
        ensures
            r.title is None && r.creator is None && r.subject is None && r.keywords is None
                && r.creator_tool is None && r.producer is None && r.create_date is None && r.modify_date is None,
    {
        XmpFields {
            title: None,
            creator: None,
            subject: None,
            keywords: None,
            creator_tool: None,
            producer: None,
            create_date: None,
            modify_date: None,
        }
    }
}

/// One optional element: `open + escaped text + close`.
pub open spec fn part_text(v: Option<Seq<char>>, open: Seq<char>, close: Seq<char>) -> Seq<Seq<char>> {
    match v {
        Some(t) => seq![open + escape_text(t) + close],
        None => Seq::empty(),
    }
}

pub open spec fn part(v: Option<&str>, open: Seq<char>, close: Seq<char>) -> Seq<Seq<char>> {
    part_text(opt_str(v), open, close)
}

/// The property texts of a packet, in order: title, creator, subject,
/// keywords, creator tool, producer, creation and modification date.
pub open spec fn field_texts(f: XmpFields) -> Seq<Option<Seq<char>>> {
    seq![opt_str(f.title), opt_str(f.creator), opt_str(f.subject), opt_str(f.keywords),
        opt_str(f.creator_tool), opt_str(f.producer), opt_str(f.create_date), opt_str(f.modify_date)]
}

/// The property elements for the eight texts `v` (see `field_texts`).
pub open spec fn parts_of(v: Seq<Option<Seq<char>>>) -> Seq<Seq<char>> {
    part_text(v[0], "<dc:title><rdf:Alt><rdf:li xml:lang=\"x-default\">"@, "</rdf:li></rdf:Alt></dc:title>"@)
        + part_text(v[1], "<dc:creator><rdf:Seq><rdf:li>"@, "</rdf:li></rdf:Seq></dc:creator>"@)
        + part_text(v[2], "<dc:subject><rdf:Bag><rdf:li>"@, "</rdf:li></rdf:Bag></dc:subject>"@)
        + part_text(v[3], "<pdf:Keywords>"@, "</pdf:Keywords>"@)
        + part_text(v[4], "<xmp:CreatorTool>"@, "</xmp:CreatorTool>"@)
        + part_text(v[5], "<pdf:Producer>"@, "</pdf:Producer>"@)
        + part_text(v[6], "<xmp:CreateDate>"@, "</xmp:CreateDate>"@)
        + part_text(v[7], "<xmp:ModifyDate>"@, "</xmp:ModifyDate>"@)
}

/// The property elements of a packet, in order.
pub open spec fn xmp_parts(f: XmpFields) -> Seq<Seq<char>> {
    parts_of(field_texts(f))
}

/// The parts joined by `sep`.
pub open spec fn join(parts: Seq<Seq<char>>, sep: Seq<char>) -> Seq<char>
    decreases parts.len(),
{
    if parts.len() == 0 {
        Seq::empty()
    } else if parts.len() == 1 {
        parts[0]
    } else {
        join(parts.drop_last(), sep) + sep + parts.last()
    }
}

pub open spec fn xmp_head() -> Seq<char> {
    "<?xpacket begin=\"\u{FEFF}\" id=\"W5M0MpCehiHzreSzNTczkc9d\"?>\n<x:xmpmeta xmlns:x=\"adobe:ns:meta/\">\n  <rdf:RDF xmlns:rdf=\"http://www.w3.org/1999/02/22-rdf-syntax-ns#\" xmlns:dc=\"http://purl.org/dc/elements/1.1/\" xmlns:xmp=\"http://ns.adobe.com/xap/1.0/\" xmlns:pdf=\"http://ns.adobe.com/pdf/1.3/\">\n    <rdf:Description>"@
}

pub open spec fn xmp_tail() -> Seq<char> {
    "</rdf:Description>\n  </rdf:RDF>\n</x:xmpmeta>\n<?xpacket end=\"w\"?>"@
}

/// The packet holding the eight property texts `v`.
pub open spec fn packet_of(v: Seq<Option<Seq<char>>>) -> Seq<char> {
    let parts = parts_of(v);
    let description = if parts.len() == 0 {
        Seq::empty()
    } else {
        "\n      "@ + join(parts, "\n      "@) + "\n    "@
    };
    xmp_head() + description + xmp_tail()
}

/// The packet `build_basic_xmp` writes.
pub open spec fn basic_xmp(f: XmpFields) -> Seq<char> {
    packet_of(field_texts(f))
}

fn push_part(parts: &mut Vec<String>, v: Option<&str>, open: &str, close: &str)
    ensures
        strings_view(final(parts)@) == strings_view(old(parts)@) + part(v, open@, close@),
{
    match v {
        Some(t) => {
            let mut s = String::new();
            push_str(&mut s, open);
            let e = escape_xml(t);
            push_str(&mut s, e.as_str());
            push_str(&mut s, close);
            let ghost before = strings_view(parts@);
            parts.push(s);
            proof { assert(strings_view(parts@) =~= before + seq![open@ + escape_text(t@) + close@]); }
        }
        None => {
            proof { assert(strings_view(parts@) + Seq::<Seq<char>>::empty() =~= strings_view(parts@)); }
        }
    }
}

pub open spec fn strings_view(v: Seq<String>) -> Seq<Seq<char>> {
    Seq::new(v.len(), |k: int| v[k]@)
}

/// Writes a packet holding the given properties.
pub fn build_basic_xmp(fields: XmpFields) -> (r: String)
    ensures r@ == basic_xmp(fields),
{
    let mut parts: Vec<String> = Vec::new();
    proof { assert(strings_view(parts@) =~= Seq::<Seq<char>>::empty()); }
    push_part(&mut parts, fields.title, "<dc:title><rdf:Alt><rdf:li xml:lang=\"x-default\">", "</rdf:li></rdf:Alt></dc:title>");
    push_part(&mut parts, fields.creator, "<dc:creator><rdf:Seq><rdf:li>", "</rdf:li></rdf:Seq></dc:creator>");
    push_part(&mut parts, fields.subject, "<dc:subject><rdf:Bag><rdf:li>", "</rdf:li></rdf:Bag></dc:subject>");
    push_part(&mut parts, fields.keywords, "<pdf:Keywords>", "</pdf:Keywords>");
    push_part(&mut parts, fields.creator_tool, "<xmp:CreatorTool>", "</xmp:CreatorTool>");
    push_part(&mut parts, fields.producer, "<pdf:Producer>", "</pdf:Producer>");
    push_part(&mut parts, fields.create_date, "<xmp:CreateDate>", "</xmp:CreateDate>");
    push_part(&mut parts, fields.modify_date, "<xmp:ModifyDate>", "</xmp:ModifyDate>");
    let ghost pv = strings_view(parts@);
    proof {
        assert(pv =~= xmp_parts(fields));
    }
    let mut s = String::new();
    push_str(&mut s, "<?xpacket begin=\"\u{FEFF}\" id=\"W5M0MpCehiHzreSzNTczkc9d\"?>\n<x:xmpmeta xmlns:x=\"adobe:ns:meta/\">\n  <rdf:RDF xmlns:rdf=\"http://www.w3.org/1999/02/22-rdf-syntax-ns#\" xmlns:dc=\"http://purl.org/dc/elements/1.1/\" xmlns:xmp=\"http://ns.adobe.com/xap/1.0/\" xmlns:pdf=\"http://ns.adobe.com/pdf/1.3/\">\n    <rdf:Description>");
    let ghost head = s@;
    if parts.len() > 0 {
        push_str(&mut s, "\n      ");
        let mut k: usize = 0;
        while k < parts.len()
            invariant
                pv == strings_view(parts@),
                pv.len() > 0,
                k <= pv.len(),
                k == 0 ==> s@ == head + "\n      "@,
                k > 0 ==> s@ == head + "\n      "@ + join(pv.take(k as int), "\n      "@),
            decreases parts.len() - k,
        {
            let ghost before = s@;
            if k > 0 {
                push_str(&mut s, "\n      ");
            }
            push_str(&mut s, parts[k].as_str());
            proof {
                let t = pv.take(k + 1);
                assert(t.drop_last() =~= pv.take(k as int));
                assert(t.last() == pv[k as int]);
                if k == 0 {
                    assert(t.len() == 1);
                    assert(join(t, "\n      "@) == t[0]);
                    assert(s@ =~= head + "\n      "@ + join(t, "\n      "@));
                } else {
                    assert(s@ =~= head + "\n      "@ + join(t, "\n      "@));
                }
            }
            k += 1;
        }
        proof { assert(pv.take(pv.len() as int) =~= pv); }
        push_str(&mut s, "\n    ");
    }
    push_str(&mut s, "</rdf:Description>\n  </rdf:RDF>\n</x:xmpmeta>\n<?xpacket end=\"w\"?>");
    proof {
        assert(s@ =~= basic_xmp(fields));
    }
    s
}

/// A packet with only a title and a creator.
pub fn build_minimal_xmp(title: Option<&str>, creator: Option<&str>) -> (r: String)
    ensures
        r@ == basic_xmp(XmpFields {
            title,
            creator,
            subject: None,
            keywords: None,
            creator_tool: None,
            producer: None,
            create_date: None,
            modify_date: None,
        }),
{
    build_basic_xmp(XmpFields {
        title,
        creator,
        subject: None,
        keywords: None,
        creator_tool: None,
        producer: None,
        create_date: None,
        modify_date: None,
    })
}

} // verus!

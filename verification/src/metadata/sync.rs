//! Keeping the `/Info` dictionary and the XMP packet in step, and PDF dates
//! written as XMP dates.

use vstd::prelude::*;
use crate::bytes::lit;
use crate::parser::num::{trim_range, trim_start_from, trim_end_from, ws_len_at, ws_len_before};
use crate::text::{all_ascii, from_utf8_lossy, lemma_ascii_lossy, push_char, push_str, utf8_lossy};
use vstd::string::StringSliceAdditionalSpecFns;

verus! {

/// Which properties a sync carries over.
#[derive(Debug, Clone, Copy)]
pub struct SyncPolicy {
    pub title: bool,
    pub author: bool,
    pub subject: bool,
    pub keywords: bool,
    pub creator: bool,
    pub producer: bool,
    pub creation_date: bool,
    pub mod_date: bool,
}

/// The default policy: everything but the two dates.
pub open spec fn default_policy() -> SyncPolicy {
    SyncPolicy { title: true, author: true, subject: true, keywords: true, creator: true, producer: true,
        creation_date: false, mod_date: false }
}

impl Default for SyncPolicy {
    /// Everything but the two dates.
    fn default() -> (r: SyncPolicy)
        ensures
            r.title && r.author && r.subject && r.keywords && r.creator && r.producer,
            !r.creation_date && !r.mod_date,
            r == default_policy(),
    {
        SyncPolicy {
            title: true,
            author: true,
            subject: true,
            keywords: true,
            creator: true,
            producer: true,
            creation_date: false,
            mod_date: false,
        }
    }
}

impl SyncPolicy {
    /// Every property, the dates included.
    pub fn all_fields() -> (r: SyncPolicy)
        ensures
            r.title && r.author && r.subject && r.keywords && r.creator && r.producer,
            r.creation_date && r.mod_date,
    {
        SyncPolicy {
            title: true,
            author: true,
            subject: true,
            keywords: true,
            creator: true,
            producer: true,
            creation_date: true,
            mod_date: true,
        }
    }
}

// ---------------------------------------------------------------------------
// Dates
// ---------------------------------------------------------------------------

/// `i` is a character boundary of UTF-8 text `t`.
pub open spec fn is_boundary(t: Seq<u8>, i: int) -> bool {
    i == 0 || i == t.len() || (0 < i < t.len() && !(0x80 <= t[i] < 0xc0))
}

/// The date text: trimmed, without a leading `D:`.
pub open spec fn date_text(b: Seq<u8>) -> Seq<u8> {
    let a = trim_start_from(b, 0, b.len() as int);
    let t = b.subrange(a, trim_end_from(b, a, b.len() as int));
    if t.len() >= 2 && t[0] == 0x44 && t[1] == 0x3a { t.skip(2) } else { t }
}

/// `str::get(x..y)`: the bytes when both ends are character boundaries.
pub open spec fn slice_at(t: Seq<u8>, x: int, y: int) -> Option<Seq<u8>> {
    if 0 <= x <= y <= t.len() && is_boundary(t, x) && is_boundary(t, y) { Some(t.subrange(x, y)) } else { None }
}

pub open spec fn field_or(t: Seq<u8>, x: int, y: int, dflt: Seq<char>) -> Seq<char> {
    match slice_at(t, x, y) {
        Some(p) => utf8_lossy(p),
        None => dflt,
    }
}

/// The time zone suffix of a date text.
pub open spec fn date_zone(t: Seq<u8>) -> Seq<char> {
    if t.len() > 14 {
        let c = t[14];
        if c == 0x5a {
            "Z"@
        } else if c == 0x2b || c == 0x2d {
            let minute = if 17 <= t.len() && is_boundary(t, 17) && t.len() >= 20 && t[17] == 0x27 {
                utf8_lossy(t.subrange(18, 20))
            } else {
                "00"@
            };
            seq![c as char] + field_or(t, 15, 17, "00"@) + seq![':'] + minute
        } else {
            Seq::empty()
        }
    } else {
        Seq::empty()
    }
}

/// The XMP form of date text (after trimming and `D:`): missing parts
/// default to January 1st, midnight; `None` when fewer than four bytes are
/// left for the year.
pub open spec fn xmp_from_text(t: Seq<u8>) -> Option<Seq<char>> {
    if t.len() < 4 {
        None
    } else {
        Some(utf8_lossy(t.subrange(0, 4)) + seq!['-'] + field_or(t, 4, 6, "01"@) + seq!['-'] + field_or(t, 6, 8, "01"@)
            + seq!['T'] + field_or(t, 8, 10, "00"@) + seq![':'] + field_or(t, 10, 12, "00"@) + seq![':']
            + field_or(t, 12, 14, "00"@) + date_zone(t))
    }
}

/// The XMP form of a PDF date (`D:YYYYMMDDHHmmSSOHH'mm'`).
pub open spec fn xmp_date(b: Seq<u8>) -> Option<Seq<char>> {
    xmp_from_text(date_text(b))
}

/// Date text can be cut where the conversion cuts it: after the year, and
/// after the two offset-minute digits.
pub open spec fn text_cuts_ok(t: Seq<u8>) -> bool {
    &&& t.len() >= 4 ==> is_boundary(t, 4)
    &&& (t.len() > 14 && (t[14] == 0x2b || t[14] == 0x2d) && 17 <= t.len() && is_boundary(t, 17)
            && t.len() >= 20 && t[17] == 0x27) ==> is_boundary(t, 20)
}

pub open spec fn date_cuts_ok(b: Seq<u8>) -> bool {
    text_cuts_ok(date_text(b))
}

fn boundary(t: &[u8], i: usize) -> (r: bool)
    requires i <= t@.len(),
    ensures r == is_boundary(t@, i as int),
{
    i == 0 || i == t.len() || !(0x80 <= t[i] && t[i] < 0xc0)
}

fn piece(t: &[u8], x: usize, y: usize) -> (r: String)
    requires x <= y <= t@.len(),
    ensures r@ == utf8_lossy(t@.subrange(x as int, y as int)),
{
    let p = vstd::slice::slice_subrange(t, x, y);
    from_utf8_lossy(p)
}

fn push_field(s: &mut String, t: &[u8], x: usize, y: usize, dflt: &str)
    requires x <= y,
    ensures final(s)@ == old(s)@ + field_or(t@, x as int, y as int, dflt@),
{
    if y <= t.len() && boundary(t, x) && boundary(t, y) {
        let p = piece(t, x, y);
        push_str(s, p.as_str());
    } else {
        push_str(s, dflt);
    }
}

/// The date text of `b`: trimmed, without a leading `D:`.
fn date_bytes(b: &[u8]) -> (t: &[u8])
    ensures t@ == date_text(b@),
{
    let (a, e) = trim_range(b, 0, b.len());
    let t0 = vstd::slice::slice_subrange(b, a, e);
    let t = if t0.len() >= 2 && t0[0] == 0x44 && t0[1] == 0x3a {
        vstd::slice::slice_subrange(t0, 2, t0.len())
    } else {
        t0
    };
    proof {
        let tb = b@.subrange(a as int, e as int);
        assert(t0@ =~= tb);
        if tb.len() >= 2 && tb[0] == 0x44 && tb[1] == 0x3a {
            assert(t@ =~= tb.skip(2));
        }
    }
    t
}

fn push_zone(s: &mut String, t: &[u8])
    requires text_cuts_ok(t@),
    ensures final(s)@ == old(s)@ + date_zone(t@),
{
    let ghost before = s@;
    if t.len() > 14 {
        let c = t[14];
        if c == 0x5a {
            push_str(s, "Z");
        } else if c == 0x2b || c == 0x2d {
            push_char(s, c as char);
            push_field(s, t, 15, 17, "00");
            push_char(s, ':');
            if 17 <= t.len() && boundary(t, 17) && t.len() >= 20 && t[17] == 0x27 {
                let m = piece(t, 18, 20);
                push_str(s, m.as_str());
            } else {
                push_str(s, "00");
            }
        }
    }
    proof { assert(s@ =~= before + date_zone(t@)); }
}

fn text_to_xmp(t: &[u8]) -> (r: Option<String>)
    requires text_cuts_ok(t@),
    ensures
        match xmp_from_text(t@) {
            Some(d) => r is Some && r->Some_0@ == d,
            None => r is None,
        },
{
    if t.len() < 4 {
        return None;
    }
    let mut s = piece(t, 0, 4);
    push_char(&mut s, '-');
    push_field(&mut s, t, 4, 6, "01");
    push_char(&mut s, '-');
    push_field(&mut s, t, 6, 8, "01");
    push_char(&mut s, 'T');
    push_field(&mut s, t, 8, 10, "00");
    push_char(&mut s, ':');
    push_field(&mut s, t, 10, 12, "00");
    push_char(&mut s, ':');
    push_field(&mut s, t, 12, 14, "00");
    push_zone(&mut s, t);
    proof { assert(s@ =~= xmp_from_text(t@)->Some_0); }
    Some(s)
}

/// Writes a PDF date as an XMP (ISO 8601) date.
pub fn pdf_date_to_xmp(input: &str) -> (r: Option<String>)
    requires date_cuts_ok(input.spec_bytes()),
    ensures
        match xmp_date(input.spec_bytes()) {
            Some(d) => r is Some && r->Some_0@ == d,
            None => r is None,
        },
{
    text_to_xmp(date_bytes(input.as_bytes()))
}

/// `pdf_date_to_xmp` for any text: `None` where the text cannot be cut as
/// the conversion needs.
pub fn pdf_date_to_xmp_checked(input: &str) -> (r: Option<String>)
    ensures
        !date_cuts_ok(input.spec_bytes()) ==> r is None,
        date_cuts_ok(input.spec_bytes()) ==> match xmp_date(input.spec_bytes()) {
            Some(d) => r is Some && r->Some_0@ == d,
            None => r is None,
        },
{
    let t = date_bytes(input.as_bytes());
    if t.len() >= 4 && !boundary(t, 4) {
        return None;
    }
    if t.len() > 14 && (t[14] == 0x2b || t[14] == 0x2d) && 17 <= t.len() && boundary(t, 17) && t.len() >= 20
        && t[17] == 0x27 && !boundary(t, 20) {
        return None;
    }
    text_to_xmp(t)
}

/// The bytes `b[x..y]` read as ASCII characters.
pub open spec fn ascii_field(b: Seq<u8>, x: int, y: int) -> Seq<char> {
    Seq::new((y - x) as nat, |i: int| b[x + i] as char)
}

/// `b` is a full PDF date `D:YYYYMMDDHHmmSS`, followed by printable ASCII
/// (a zone such as `Z` or `+01'00'`, or nothing).
pub open spec fn full_pdf_date(b: Seq<u8>) -> bool {
    &&& b.len() >= 16
    &&& b[0] == 0x44 && b[1] == 0x3a
    &&& forall|i: int| 2 <= i < 16 ==> 0x30 <= #[trigger] b[i] <= 0x39
    &&& forall|i: int| 16 <= i < b.len() ==> 0x21 <= #[trigger] b[i] <= 0x7e
}

/// A full PDF date `D:YYYYMMDDHHmmSS...` becomes the XMP date
/// `YYYY-MM-DDTHH:mm:SS...`: each field of the XMP date is the PDF date's
/// field of the same name (year at bytes 2..6, month 6..8, day 8..10, hour
/// 10..12, minute 12..14, second 14..16), with nothing after the seconds
/// when the PDF date ends there, `Z` after them when it goes on with `Z`,
/// and the offset `+HH:mm` (or `-HH:mm`) when it goes on with `+HH'mm`.
pub proof fn lemma_pdf_date_fields(b: Seq<u8>)
    requires full_pdf_date(b),
    ensures
        date_cuts_ok(b),
        xmp_date(b) is Some,
        xmp_date(b)->Some_0.len() >= 19,
        xmp_date(b)->Some_0.subrange(0, 4) == ascii_field(b, 2, 6),
        xmp_date(b)->Some_0[4] == '-',
        xmp_date(b)->Some_0.subrange(5, 7) == ascii_field(b, 6, 8),
        xmp_date(b)->Some_0[7] == '-',
        xmp_date(b)->Some_0.subrange(8, 10) == ascii_field(b, 8, 10),
        xmp_date(b)->Some_0[10] == 'T',
        xmp_date(b)->Some_0.subrange(11, 13) == ascii_field(b, 10, 12),
        xmp_date(b)->Some_0[13] == ':',
        xmp_date(b)->Some_0.subrange(14, 16) == ascii_field(b, 12, 14),
        xmp_date(b)->Some_0[16] == ':',
        xmp_date(b)->Some_0.subrange(17, 19) == ascii_field(b, 14, 16),
        b.len() == 16 ==> xmp_date(b)->Some_0.len() == 19,
        b.len() > 16 && b[16] == 0x5a ==> xmp_date(b)->Some_0.skip(19) == seq!['Z'],
        b.len() >= 22 && (b[16] == 0x2b || b[16] == 0x2d) && b[19] == 0x27 ==> xmp_date(b)->Some_0.skip(19)
            == seq![b[16] as char] + ascii_field(b, 17, 19) + seq![':'] + ascii_field(b, 20, 22),
{
    let n = b.len() as int;
    assert(ws_len_at(b, 0) == 0);
    assert(trim_start_from(b, 0, n) == 0);
    assert(b[n - 1] >= 0x21 && b[n - 2] < 0x80 && b[n - 3] < 0x80);
    assert(ws_len_before(b, n) == 0);
    assert(trim_end_from(b, 0, n) == n);
    assert(b.subrange(0, n) =~= b);
    let t = b.skip(2);
    assert(date_text(b) == t);
    assert(all_ascii(t));
    assert forall|i: int| 0 <= i <= t.len() implies is_boundary(t, i) by {}
    assert(text_cuts_ok(t));
    assert forall|x: int, y: int, dflt: Seq<char>| 0 <= x <= y <= t.len() implies
        #[trigger] field_or(t, x, y, dflt) == ascii_field(b, x + 2, y + 2) by {
        let p = t.subrange(x, y);
        assert(slice_at(t, x, y) == Some(p));
        assert(all_ascii(p));
        lemma_ascii_lossy(p);
        assert(Seq::new(p.len(), |i: int| p[i] as char) =~= ascii_field(b, x + 2, y + 2));
    }
    let year = utf8_lossy(t.subrange(0, 4));
    assert(all_ascii(t.subrange(0, 4)));
    lemma_ascii_lossy(t.subrange(0, 4));
    assert(year =~= ascii_field(b, 2, 6));
    let mo = field_or(t, 4, 6, "01"@);
    let d = field_or(t, 6, 8, "01"@);
    let h = field_or(t, 8, 10, "00"@);
    let mi = field_or(t, 10, 12, "00"@);
    let se = field_or(t, 12, 14, "00"@);
    let z = date_zone(t);
    assert(mo == ascii_field(b, 6, 8) && d == ascii_field(b, 8, 10) && h == ascii_field(b, 10, 12));
    assert(mi == ascii_field(b, 12, 14) && se == ascii_field(b, 14, 16));
    let x = year + seq!['-'] + mo + seq!['-'] + d + seq!['T'] + h + seq![':'] + mi + seq![':'] + se + z;
    assert(xmp_date(b) == Some(x));
    assert(x.subrange(0, 4) =~= ascii_field(b, 2, 6));
    assert(x.subrange(5, 7) =~= ascii_field(b, 6, 8));
    assert(x.subrange(8, 10) =~= ascii_field(b, 8, 10));
    assert(x.subrange(11, 13) =~= ascii_field(b, 10, 12));
    assert(x.subrange(14, 16) =~= ascii_field(b, 12, 14));
    assert(x.subrange(17, 19) =~= ascii_field(b, 14, 16));
    assert(x.skip(19) =~= z);
    if n == 16 {
        assert(z.len() == 0);
    }
    if n > 16 && b[16] == 0x5a {
        assert(t[14] == 0x5a);
        assert(z == "Z"@);
        reveal_strlit("Z");
        assert(z =~= seq!['Z']);
    }
    if n >= 22 && (b[16] == 0x2b || b[16] == 0x2d) && b[19] == 0x27 {
        assert(t[14] == b[16] && t[17] == 0x27);
        assert(is_boundary(t, 17));
        assert(all_ascii(t.subrange(18, 20)));
        lemma_ascii_lossy(t.subrange(18, 20));
        assert(utf8_lossy(t.subrange(18, 20)) =~= ascii_field(b, 20, 22));
        assert(field_or(t, 15, 17, "00"@) == ascii_field(b, 17, 19));
        assert(z == seq![b[16] as char] + ascii_field(b, 17, 19) + seq![':'] + ascii_field(b, 20, 22));
    }
}

/// A PDF date that gives only its year, `D:YYYY`, becomes January 1st of
/// that year at midnight: `YYYY-01-01T00:00:00`.
pub proof fn lemma_pdf_date_year_only(b: Seq<u8>)
    requires
        b.len() == 6,
        b[0] == 0x44 && b[1] == 0x3a,
        forall|i: int| 2 <= i < 6 ==> 0x30 <= #[trigger] b[i] <= 0x39,
    ensures
        date_cuts_ok(b),
        xmp_date(b) == Some(ascii_field(b, 2, 6)
            + seq!['-', '0', '1', '-', '0', '1', 'T', '0', '0', ':', '0', '0', ':', '0', '0']),
{
    assert(ws_len_at(b, 0) == 0);
    assert(trim_start_from(b, 0, 6) == 0);
    assert(ws_len_before(b, 6) == 0);
    assert(trim_end_from(b, 0, 6) == 6);
    assert(b.subrange(0, 6) =~= b);
    let t = b.skip(2);
    assert(date_text(b) == t);
    assert(all_ascii(t.subrange(0, 4)));
    lemma_ascii_lossy(t.subrange(0, 4));
    assert(utf8_lossy(t.subrange(0, 4)) =~= ascii_field(b, 2, 6));
    assert(is_boundary(t, 4));
    assert(text_cuts_ok(t));
    reveal_strlit("01");
    reveal_strlit("00");
    assert(field_or(t, 4, 6, "01"@) == seq!['0', '1']);
    assert(field_or(t, 8, 10, "00"@) == seq!['0', '0']);
    assert(date_zone(t).len() == 0);
    assert(xmp_from_text(t)->Some_0 =~= ascii_field(b, 2, 6)
        + seq!['-', '0', '1', '-', '0', '1', 'T', '0', '0', ':', '0', '0', ':', '0', '0']);
}

} // verus!

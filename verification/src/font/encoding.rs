//! Single-byte font encodings: code → Unicode character and glyph name.

use vstd::prelude::*;
use crate::bytes::{eq_str, lit};
use crate::cos::{CosDictionary, CosName, CosObject, CosValue, dict_lookup, view_obj, view_objs, lemma_view_objs};
use vstd::string::StringSliceAdditionalSpecFns;
use crate::font::glyphs::{glyph_bytes_to_char, glyph_char};
use crate::text::{from_utf8_lossy, utf8_lossy, push_char};

verus! {

/// The base encoding named by `/BaseEncoding` or by a font's `/Encoding` name.
#[derive(Debug, Clone, Copy, PartialEq, Eq, Structural)]
pub enum BaseEncoding {
    /// Adobe standard encoding.
    StandardEncoding,
    MacRomanEncoding,
    /// Windows code page 1252.
    WinAnsiEncoding,
    PdfDocEncoding,
    /// Symbolic fonts: codes stand for themselves.
    FontSpecific,
}

/// The name of each base encoding.
pub open spec fn base_encoding_name(e: BaseEncoding) -> Seq<u8> {
    match e {
        BaseEncoding::StandardEncoding => lit("StandardEncoding"),
        BaseEncoding::MacRomanEncoding => lit("MacRomanEncoding"),
        BaseEncoding::WinAnsiEncoding => lit("WinAnsiEncoding"),
        BaseEncoding::PdfDocEncoding => lit("PDFDocEncoding"),
        BaseEncoding::FontSpecific => lit("FontSpecific"),
    }
}

/// The base encoding a name denotes.
pub open spec fn base_encoding_named(n: Seq<u8>) -> Option<BaseEncoding> {
    if n == lit("StandardEncoding") {
        Some(BaseEncoding::StandardEncoding)
    } else if n == lit("MacRomanEncoding") {
        Some(BaseEncoding::MacRomanEncoding)
    } else if n == lit("WinAnsiEncoding") {
        Some(BaseEncoding::WinAnsiEncoding)
    } else if n == lit("PDFDocEncoding") {
        Some(BaseEncoding::PdfDocEncoding)
    } else if n == lit("FontSpecific") {
        Some(BaseEncoding::FontSpecific)
    } else {
        None
    }
}

impl BaseEncoding {
    pub fn from_name(name: &[u8]) -> (r: Option<BaseEncoding>)
        ensures r == base_encoding_named(name@),
    {
        if eq_str(name, "StandardEncoding") {
            Some(BaseEncoding::StandardEncoding)
        } else if eq_str(name, "MacRomanEncoding") {
            Some(BaseEncoding::MacRomanEncoding)
        } else if eq_str(name, "WinAnsiEncoding") {
            Some(BaseEncoding::WinAnsiEncoding)
        } else if eq_str(name, "PDFDocEncoding") {
            Some(BaseEncoding::PdfDocEncoding)
        } else if eq_str(name, "FontSpecific") {
            Some(BaseEncoding::FontSpecific)
        } else {
            None
        }
    }

    pub fn as_str(&self) -> (r: &'static str)
        ensures r.spec_bytes() == base_encoding_name(*self),
    {
        match self {
            BaseEncoding::StandardEncoding => "StandardEncoding",
            BaseEncoding::MacRomanEncoding => "MacRomanEncoding",
            BaseEncoding::WinAnsiEncoding => "WinAnsiEncoding",
            BaseEncoding::PdfDocEncoding => "PDFDocEncoding",
            BaseEncoding::FontSpecific => "FontSpecific",
        }
    }
}

/// Reading the name of a base encoding gives that encoding back.
pub proof fn lemma_base_encoding_name_round_trip(e: BaseEncoding)
    ensures base_encoding_named(base_encoding_name(e)) == Some(e),
{
    reveal_strlit("StandardEncoding");
    reveal_strlit("MacRomanEncoding");
    reveal_strlit("WinAnsiEncoding");
    reveal_strlit("PDFDocEncoding");
    reveal_strlit("FontSpecific");
    vstd::string::is_ascii_spec_bytes("StandardEncoding");
    vstd::string::is_ascii_spec_bytes("MacRomanEncoding");
    vstd::string::is_ascii_spec_bytes("WinAnsiEncoding");
    vstd::string::is_ascii_spec_bytes("PDFDocEncoding");
    vstd::string::is_ascii_spec_bytes("FontSpecific");
    let s = lit("StandardEncoding");
    let m = lit("MacRomanEncoding");
    let w = lit("WinAnsiEncoding");
    let p = lit("PDFDocEncoding");
    let f = lit("FontSpecific");
    assert(s[0] != m[0]);
    assert(s.len() != w.len() && s.len() != p.len() && s.len() != f.len());
    assert(m.len() != w.len() && m.len() != p.len() && m.len() != f.len());
    assert(w.len() != p.len() && w.len() != f.len());
    assert(p.len() != f.len());
}

/// The character the Mac Roman encoding gives to codes 0x80..0xFF.
pub open spec fn mac_roman_high() -> Seq<char> {
    seq![
        '\u{00C4}', '\u{00C5}', '\u{00C7}', '\u{00C9}', '\u{00D1}', '\u{00D6}', '\u{00DC}', '\u{00E1}',
        '\u{00E0}', '\u{00E2}', '\u{00E4}', '\u{00E3}', '\u{00E5}', '\u{00E7}', '\u{00E9}', '\u{00E8}',
        '\u{00EA}', '\u{00EB}', '\u{00ED}', '\u{00EC}', '\u{00EE}', '\u{00EF}', '\u{00F1}', '\u{00F3}',
        '\u{00F2}', '\u{00F4}', '\u{00F6}', '\u{00F5}', '\u{00FA}', '\u{00F9}', '\u{00FB}', '\u{00FC}',
        '\u{2020}', '\u{00B0}', '\u{00A2}', '\u{00A3}', '\u{00A7}', '\u{2022}', '\u{00B6}', '\u{00DF}',
        '\u{00AE}', '\u{00A9}', '\u{2122}', '\u{00B4}', '\u{00A8}', '\u{2260}', '\u{00C6}', '\u{00D8}',
        '\u{221E}', '\u{00B1}', '\u{2264}', '\u{2265}', '\u{00A5}', '\u{00B5}', '\u{2202}', '\u{2211}',
        '\u{220F}', '\u{03C0}', '\u{222B}', '\u{00AA}', '\u{00BA}', '\u{03A9}', '\u{00E6}', '\u{00F8}',
        '\u{00BF}', '\u{00A1}', '\u{00AC}', '\u{221A}', '\u{0192}', '\u{2248}', '\u{2206}', '\u{00AB}',
        '\u{00BB}', '\u{2026}', '\u{00A0}', '\u{00C0}', '\u{00C3}', '\u{00D5}', '\u{0152}', '\u{0153}',
        '\u{2013}', '\u{2014}', '\u{201C}', '\u{201D}', '\u{2018}', '\u{2019}', '\u{00F7}', '\u{25CA}',
        '\u{00FF}', '\u{0178}', '\u{2044}', '\u{20AC}', '\u{2039}', '\u{203A}', '\u{FB01}', '\u{FB02}',
        '\u{2021}', '\u{00B7}', '\u{201A}', '\u{201E}', '\u{2030}', '\u{00C2}', '\u{00CA}', '\u{00C1}',
        '\u{00CB}', '\u{00C8}', '\u{00CD}', '\u{00CE}', '\u{00CF}', '\u{00CC}', '\u{00D3}', '\u{00D4}',
        '\u{F8FF}', '\u{00D2}', '\u{00DA}', '\u{00DB}', '\u{00D9}', '\u{0131}', '\u{02C6}', '\u{02DC}',
        '\u{00AF}', '\u{02D8}', '\u{02D9}', '\u{02DA}', '\u{00B8}', '\u{02DD}', '\u{02DB}', '\u{02C7}'
    ]
}

/// WinAnsiEncoding (code page 1252) as the library maps it.
pub open spec fn win_ansi_char(b: u8) -> char {
    if (0x20 <= b && b <= 0x7e) || 0xa0 <= b {
        b as char
    } else if b == 0x80 { '\u{20AC}' }
    else if b == 0x82 { '\u{201A}' }
    else if b == 0x83 { '\u{0192}' }
    else if b == 0x84 { '\u{201E}' }
    else if b == 0x85 { '\u{2026}' }
    else if b == 0x86 { '\u{2020}' }
    else if b == 0x87 { '\u{2021}' }
    else if b == 0x88 { '\u{02C6}' }
    else if b == 0x89 { '\u{2030}' }
    else if b == 0x8a { '\u{0160}' }
    else if b == 0x8b { '\u{2039}' }
    else if b == 0x8c { '\u{0152}' }
    else if b == 0x8e { '\u{017D}' }
    else if b == 0x91 { '\u{2018}' }
    else if b == 0x92 { '\u{2019}' }
    else if b == 0x93 { '\u{201C}' }
    else if b == 0x94 { '\u{201D}' }
    else if b == 0x95 { '\u{2022}' }
    else if b == 0x96 { '\u{2013}' }
    else if b == 0x97 { '\u{2014}' }
    else if b == 0x98 { '\u{02DC}' }
    else if b == 0x99 { '\u{2122}' }
    else if b == 0x9a { '\u{0161}' }
    else if b == 0x9b { '\u{203A}' }
    else if b == 0x9c { '\u{0153}' }
    else if b == 0x9e { '\u{017E}' }
    else if b == 0x9f { '\u{0178}' }
    else { '\u{FFFD}' }
}

/// Code page 1252 at the codes `0x80..=0x9F`, as Unicode code points, with
/// `0xFFFD` where the code page defines no character (0x81, 0x8D, 0x8F,
/// 0x90, 0x9D).
pub open spec fn cp1252_block_80() -> Seq<u32> {
    seq![
        0x20ACu32, 0xFFFD, 0x201A, 0x0192, 0x201E, 0x2026, 0x2020, 0x2021,
        0x02C6, 0x2030, 0x0160, 0x2039, 0x0152, 0xFFFD, 0x017D, 0xFFFD,
        0xFFFD, 0x2018, 0x2019, 0x201C, 0x201D, 0x2022, 0x2013, 0x2014,
        0x02DC, 0x2122, 0x0161, 0x203A, 0x0153, 0xFFFD, 0x017E, 0x0178
    ]
}

/// The code point code page 1252 gives a code: Latin-1 outside
/// `0x80..=0x9F`, the block above inside it; the control codes (below 0x20,
/// and 0x7F) have no printable character and read as `0xFFFD`.
pub open spec fn cp1252_code_point(b: u8) -> u32 {
    if 0x80 <= b < 0xa0 {
        cp1252_block_80()[b - 0x80]
    } else if b < 0x20 || b == 0x7f {
        0xFFFD
    } else {
        b as u32
    }
}

/// WinAnsiEncoding decodes every code as Windows code page 1252 does (so
/// 0x92, the apostrophe of Windows text, is U+2019), the codes it leaves
/// undefined and the control codes as U+FFFD.
pub proof fn lemma_win_ansi_is_cp1252()
    ensures
        forall|b: u8| #[trigger] base_table(BaseEncoding::WinAnsiEncoding)[b as int] as u32 == cp1252_code_point(b),
{
    assert forall|b: u8| #[trigger] base_table(BaseEncoding::WinAnsiEncoding)[b as int] as u32 == cp1252_code_point(b) by {
        assert(base_table(BaseEncoding::WinAnsiEncoding)[b as int] == win_ansi_char(b));
    }
}

/// The Mac OS Roman character set at the codes `0x80..=0xFF`, as Unicode
/// code points (the current form, with the euro sign at 0xDB).
pub open spec fn mac_os_roman_upper() -> Seq<u32> {
    seq![
        0x00C4u32, 0x00C5, 0x00C7, 0x00C9, 0x00D1, 0x00D6, 0x00DC, 0x00E1, 0x00E0, 0x00E2, 0x00E4, 0x00E3, 0x00E5, 0x00E7, 0x00E9, 0x00E8,
        0x00EA, 0x00EB, 0x00ED, 0x00EC, 0x00EE, 0x00EF, 0x00F1, 0x00F3, 0x00F2, 0x00F4, 0x00F6, 0x00F5, 0x00FA, 0x00F9, 0x00FB, 0x00FC,
        0x2020, 0x00B0, 0x00A2, 0x00A3, 0x00A7, 0x2022, 0x00B6, 0x00DF, 0x00AE, 0x00A9, 0x2122, 0x00B4, 0x00A8, 0x2260, 0x00C6, 0x00D8,
        0x221E, 0x00B1, 0x2264, 0x2265, 0x00A5, 0x00B5, 0x2202, 0x2211, 0x220F, 0x03C0, 0x222B, 0x00AA, 0x00BA, 0x03A9, 0x00E6, 0x00F8,
        0x00BF, 0x00A1, 0x00AC, 0x221A, 0x0192, 0x2248, 0x2206, 0x00AB, 0x00BB, 0x2026, 0x00A0, 0x00C0, 0x00C3, 0x00D5, 0x0152, 0x0153,
        0x2013, 0x2014, 0x201C, 0x201D, 0x2018, 0x2019, 0x00F7, 0x25CA, 0x00FF, 0x0178, 0x2044, 0x20AC, 0x2039, 0x203A, 0xFB01, 0xFB02,
        0x2021, 0x00B7, 0x201A, 0x201E, 0x2030, 0x00C2, 0x00CA, 0x00C1, 0x00CB, 0x00C8, 0x00CD, 0x00CE, 0x00CF, 0x00CC, 0x00D3, 0x00D4,
        0xF8FF, 0x00D2, 0x00DA, 0x00DB, 0x00D9, 0x0131, 0x02C6, 0x02DC, 0x00AF, 0x02D8, 0x02D9, 0x02DA, 0x00B8, 0x02DD, 0x02DB, 0x02C7
    ]
}

/// The code point Mac OS Roman gives a code: ASCII below 0x80, the block
/// above from 0x80 on; the control codes (below 0x20, and 0x7F) have no
/// printable character and read as `0xFFFD`.
pub open spec fn mac_os_roman_code_point(b: u8) -> u32 {
    if 0x80 <= b {
        mac_os_roman_upper()[b - 0x80]
    } else if b < 0x20 || b == 0x7f {
        0xFFFD
    } else {
        b as u32
    }
}

/// MacRomanEncoding decodes every code as the Mac OS Roman character set
/// does, the control codes as U+FFFD.
pub proof fn lemma_mac_roman_is_mac_os_roman()
    ensures
        forall|b: u8| #[trigger] base_table(BaseEncoding::MacRomanEncoding)[b as int] as u32 == mac_os_roman_code_point(b),
{
    assert forall|b: u8| #[trigger] base_table(BaseEncoding::MacRomanEncoding)[b as int] as u32 == mac_os_roman_code_point(b) by {
        assert(base_table(BaseEncoding::MacRomanEncoding)[b as int] == mac_roman_char(b));
    }
}

/// The code points the library reads from Adobe StandardEncoding: the
/// printable ASCII codes, where StandardEncoding puts the typographic
/// quotes at 0x27 (quoteright, U+2019) and 0x60 (quoteleft, U+2018); from
/// the upper half, 0xA4 (fraction, U+2044) and 0xA6 (florin, U+0192); every
/// other code reads as `0xFFFD`.
pub open spec fn adobe_standard_code_point(b: u8) -> u32 {
    if b == 0x27 {
        0x2019
    } else if b == 0x60 {
        0x2018
    } else if 0x21 <= b <= 0x7e {
        b as u32
    } else if b == 0xa4 {
        0x2044
    } else if b == 0xa6 {
        0x0192
    } else {
        0xFFFD
    }
}

/// StandardEncoding decodes every code to the code point above.
pub proof fn lemma_standard_is_adobe_standard()
    ensures
        forall|b: u8| #[trigger] base_table(BaseEncoding::StandardEncoding)[b as int] as u32 == adobe_standard_code_point(b),
{
    assert forall|b: u8| #[trigger] base_table(BaseEncoding::StandardEncoding)[b as int] as u32 == adobe_standard_code_point(b) by {
        assert(base_table(BaseEncoding::StandardEncoding)[b as int] == standard_char(b));
    }
}

pub open spec fn mac_roman_char(b: u8) -> char {
    if 0x20 <= b && b <= 0x7e {
        b as char
    } else if 0x80 <= b {
        mac_roman_high()[b - 0x80]
    } else {
        '\u{FFFD}'
    }
}

pub open spec fn standard_char(b: u8) -> char {
    if b == 0x60 {
        '\u{2018}'
    } else if b == 0x27 {
        '\u{2019}'
    } else if 0x21 <= b && b <= 0x7e {
        b as char
    } else if b == 0xa4 {
        '\u{2044}'
    } else if b == 0xa6 {
        '\u{0192}'
    } else {
        '\u{FFFD}'
    }
}

/// The character each base encoding gives to a code (PDFDocEncoding is read
/// as WinAnsiEncoding).
pub open spec fn base_char(k: BaseEncoding, b: u8) -> char {
    match k {
        BaseEncoding::MacRomanEncoding => mac_roman_char(b),
        BaseEncoding::StandardEncoding => standard_char(b),
        BaseEncoding::FontSpecific => b as char,
        _ => win_ansi_char(b),
    }
}

/// The 256-entry table of a base encoding.
pub open spec fn base_table(k: BaseEncoding) -> Seq<char> {
    Seq::new(256, |i: int| base_char(k, i as u8))
}

pub open spec fn no_glyph_names() -> Seq<Option<Seq<char>>> {
    Seq::new(256, |i: int| None::<Seq<char>>)
}

/// The glyph names of an encoding, each read as its characters.
pub open spec fn names_view(v: Seq<Option<String>>) -> Seq<Option<Seq<char>>> {
    Seq::new(v.len(), |i: int| match v[i] {
        Some(s) => Some(s@),
        None => None,
    })
}

/// A resolved 256-slot single-byte encoding.
#[derive(Debug, Clone)]
pub struct Encoding {
    /// Base encoding (informational).
    pub base: Option<BaseEncoding>,
    /// Unicode character per code 0..=255.
    pub table: Vec<char>,
    /// Glyph name per code, from `/Differences`.
    pub glyph_names: Vec<Option<String>>,
}

/// The code after `c` in a `/Differences` run (wrapping at the top).
pub open spec fn next_code(c: u32) -> u32 {
    if c == u32::MAX { 0 } else { (c + 1) as u32 }
}

/// What a `/Differences` array does to a table and its glyph names, starting
/// at code `code`: an integer sets the code, a name fills the current code
/// (when below 256) and moves to the next one, anything else is skipped.
pub open spec fn apply_differences(
    items: Seq<CosValue>,
    code: u32,
    t: Seq<char>,
    n: Seq<Option<Seq<char>>>,
) -> (Seq<char>, Seq<Option<Seq<char>>>)
    decreases items.len(),
{
    if items.len() == 0 {
        (t, n)
    } else {
        let rest = items.drop_first();
        match items[0] {
            CosValue::Integer(v) => apply_differences(rest, v as u32, t, n),
            CosValue::Name(nm) => if code < 256 {
                let t2 = match glyph_char(nm) {
                    Some(c) => t.update(code as int, c),
                    None => t,
                };
                apply_differences(rest, next_code(code), t2, n.update(code as int, Some(utf8_lossy(nm))))
            } else {
                apply_differences(rest, next_code(code), t, n)
            },
            _ => apply_differences(rest, code, t, n),
        }
    }
}

/// The base encoding an encoding dictionary starts from.
pub open spec fn dict_base(d: Seq<(Seq<u8>, CosValue)>) -> BaseEncoding {
    match dict_lookup(d, lit("BaseEncoding")) {
        Some(CosValue::Name(n)) => match base_encoding_named(n) {
            Some(BaseEncoding::MacRomanEncoding) => BaseEncoding::MacRomanEncoding,
            Some(BaseEncoding::StandardEncoding) => BaseEncoding::StandardEncoding,
            _ => BaseEncoding::WinAnsiEncoding,
        },
        _ => BaseEncoding::WinAnsiEncoding,
    }
}

/// Table and glyph names of the encoding an encoding dictionary describes.
pub open spec fn dict_encoding(d: Seq<(Seq<u8>, CosValue)>) -> (Seq<char>, Seq<Option<Seq<char>>>) {
    let k = dict_base(d);
    match dict_lookup(d, lit("Differences")) {
        Some(CosValue::Array(a)) => apply_differences(a, 0, base_table(k), no_glyph_names()),
        _ => (base_table(k), no_glyph_names()),
    }
}

/// The base encoding a font's `/Encoding` name selects (unknown names are
/// font-specific; PDFDocEncoding is read as WinAnsiEncoding).
pub open spec fn named_kind(n: Seq<u8>) -> BaseEncoding {
    match base_encoding_named(n) {
        Some(BaseEncoding::WinAnsiEncoding) => BaseEncoding::WinAnsiEncoding,
        Some(BaseEncoding::MacRomanEncoding) => BaseEncoding::MacRomanEncoding,
        Some(BaseEncoding::StandardEncoding) => BaseEncoding::StandardEncoding,
        Some(BaseEncoding::PdfDocEncoding) => BaseEncoding::WinAnsiEncoding,
        _ => BaseEncoding::FontSpecific,
    }
}

fn win_ansi_code(b: u8) -> (c: char)
    ensures c == win_ansi_char(b),
{
    if (0x20 <= b && b <= 0x7e) || 0xa0 <= b {
        b as char
    } else if b == 0x80 { '\u{20AC}' }
    else if b == 0x82 { '\u{201A}' }
    else if b == 0x83 { '\u{0192}' }
    else if b == 0x84 { '\u{201E}' }
    else if b == 0x85 { '\u{2026}' }
    else if b == 0x86 { '\u{2020}' }
    else if b == 0x87 { '\u{2021}' }
    else if b == 0x88 { '\u{02C6}' }
    else if b == 0x89 { '\u{2030}' }
    else if b == 0x8a { '\u{0160}' }
    else if b == 0x8b { '\u{2039}' }
    else if b == 0x8c { '\u{0152}' }
    else if b == 0x8e { '\u{017D}' }
    else if b == 0x91 { '\u{2018}' }
    else if b == 0x92 { '\u{2019}' }
    else if b == 0x93 { '\u{201C}' }
    else if b == 0x94 { '\u{201D}' }
    else if b == 0x95 { '\u{2022}' }
    else if b == 0x96 { '\u{2013}' }
    else if b == 0x97 { '\u{2014}' }
    else if b == 0x98 { '\u{02DC}' }
    else if b == 0x99 { '\u{2122}' }
    else if b == 0x9a { '\u{0161}' }
    else if b == 0x9b { '\u{203A}' }
    else if b == 0x9c { '\u{0153}' }
    else if b == 0x9e { '\u{017E}' }
    else if b == 0x9f { '\u{0178}' }
    else { '\u{FFFD}' }
}

fn standard_code(b: u8) -> (c: char)
    ensures c == standard_char(b),
{
    if b == 0x60 {
        '\u{2018}'
    } else if b == 0x27 {
        '\u{2019}'
    } else if 0x21 <= b && b <= 0x7e {
        b as char
    } else if b == 0xa4 {
        '\u{2044}'
    } else if b == 0xa6 {
        '\u{0192}'
    } else {
        '\u{FFFD}'
    }
}

fn mac_roman_high_table() -> (v: Vec<char>)
    ensures v@ == mac_roman_high(),
{
    vec![
        '\u{00C4}', '\u{00C5}', '\u{00C7}', '\u{00C9}', '\u{00D1}', '\u{00D6}', '\u{00DC}', '\u{00E1}',
        '\u{00E0}', '\u{00E2}', '\u{00E4}', '\u{00E3}', '\u{00E5}', '\u{00E7}', '\u{00E9}', '\u{00E8}',
        '\u{00EA}', '\u{00EB}', '\u{00ED}', '\u{00EC}', '\u{00EE}', '\u{00EF}', '\u{00F1}', '\u{00F3}',
        '\u{00F2}', '\u{00F4}', '\u{00F6}', '\u{00F5}', '\u{00FA}', '\u{00F9}', '\u{00FB}', '\u{00FC}',
        '\u{2020}', '\u{00B0}', '\u{00A2}', '\u{00A3}', '\u{00A7}', '\u{2022}', '\u{00B6}', '\u{00DF}',
        '\u{00AE}', '\u{00A9}', '\u{2122}', '\u{00B4}', '\u{00A8}', '\u{2260}', '\u{00C6}', '\u{00D8}',
        '\u{221E}', '\u{00B1}', '\u{2264}', '\u{2265}', '\u{00A5}', '\u{00B5}', '\u{2202}', '\u{2211}',
        '\u{220F}', '\u{03C0}', '\u{222B}', '\u{00AA}', '\u{00BA}', '\u{03A9}', '\u{00E6}', '\u{00F8}',
        '\u{00BF}', '\u{00A1}', '\u{00AC}', '\u{221A}', '\u{0192}', '\u{2248}', '\u{2206}', '\u{00AB}',
        '\u{00BB}', '\u{2026}', '\u{00A0}', '\u{00C0}', '\u{00C3}', '\u{00D5}', '\u{0152}', '\u{0153}',
        '\u{2013}', '\u{2014}', '\u{201C}', '\u{201D}', '\u{2018}', '\u{2019}', '\u{00F7}', '\u{25CA}',
        '\u{00FF}', '\u{0178}', '\u{2044}', '\u{20AC}', '\u{2039}', '\u{203A}', '\u{FB01}', '\u{FB02}',
        '\u{2021}', '\u{00B7}', '\u{201A}', '\u{201E}', '\u{2030}', '\u{00C2}', '\u{00CA}', '\u{00C1}',
        '\u{00CB}', '\u{00C8}', '\u{00CD}', '\u{00CE}', '\u{00CF}', '\u{00CC}', '\u{00D3}', '\u{00D4}',
        '\u{F8FF}', '\u{00D2}', '\u{00DA}', '\u{00DB}', '\u{00D9}', '\u{0131}', '\u{02C6}', '\u{02DC}',
        '\u{00AF}', '\u{02D8}', '\u{02D9}', '\u{02DA}', '\u{00B8}', '\u{02DD}', '\u{02DB}', '\u{02C7}'
    ]
}

impl Encoding {
    /// Both tables hold 256 entries.
    pub open spec fn wf(&self) -> bool {
        self.table@.len() == 256 && self.glyph_names@.len() == 256
    }

    /// A fresh encoding of base `k`.
    fn with_base(k: BaseEncoding) -> (r: Encoding)
        requires k != BaseEncoding::PdfDocEncoding,
        ensures
            r.wf(),
            r.base == Some(k),
            r.table@ == base_table(k),
            names_view(r.glyph_names@) == no_glyph_names(),
    {
        let mac = mac_roman_high_table();
        let mut table: Vec<char> = Vec::new();
        let mut names: Vec<Option<String>> = Vec::new();
        let mut i: usize = 0;
        while i < 256
            invariant
                i <= 256,
                mac@ == mac_roman_high(),
                table@.len() == i,
                names@.len() == i,
                forall|j: int| 0 <= j < i ==> table@[j] == base_char(k, j as u8),
                forall|j: int| 0 <= j < i ==> names@[j] is None,
            decreases 256 - i,
        {
            let b = i as u8;
            let c = match k {
                BaseEncoding::MacRomanEncoding => if 0x20 <= b && b <= 0x7e {
                    b as char
                } else if 0x80 <= b {
                    mac[(b - 0x80) as usize]
                } else {
                    '\u{FFFD}'
                },
                BaseEncoding::StandardEncoding => standard_code(b),
                BaseEncoding::FontSpecific => b as char,
                _ => win_ansi_code(b),
            };
            table.push(c);
            names.push(None);
            i += 1;
        }
        proof {
            assert(table@ =~= base_table(k));
            assert(names_view(names@) =~= no_glyph_names());
        }
        Encoding { base: Some(k), table, glyph_names: names }
    }

    /// WinAnsiEncoding (Windows code page 1252).
    pub fn win_ansi() -> (r: Encoding)
        ensures
            r.wf(),
            r.base == Some(BaseEncoding::WinAnsiEncoding),
            r.table@ == base_table(BaseEncoding::WinAnsiEncoding),
            forall|b: u8| #[trigger] r.table@[b as int] as u32 == cp1252_code_point(b),
            names_view(r.glyph_names@) == no_glyph_names(),
    {
        proof { lemma_win_ansi_is_cp1252(); }
        Self::with_base(BaseEncoding::WinAnsiEncoding)
    }

    /// MacRomanEncoding.
    pub fn mac_roman() -> (r: Encoding)
        ensures
            r.wf(),
            r.base == Some(BaseEncoding::MacRomanEncoding),
            r.table@ == base_table(BaseEncoding::MacRomanEncoding),
            forall|b: u8| #[trigger] r.table@[b as int] as u32 == mac_os_roman_code_point(b),
            names_view(r.glyph_names@) == no_glyph_names(),
    {
        proof { lemma_mac_roman_is_mac_os_roman(); }
        Self::with_base(BaseEncoding::MacRomanEncoding)
    }

    /// StandardEncoding (Adobe).
    pub fn standard() -> (r: Encoding)
        ensures
            r.wf(),
            r.base == Some(BaseEncoding::StandardEncoding),
            r.table@ == base_table(BaseEncoding::StandardEncoding),
            forall|b: u8| #[trigger] r.table@[b as int] as u32 == adobe_standard_code_point(b),
            names_view(r.glyph_names@) == no_glyph_names(),
    {
        proof { lemma_standard_is_adobe_standard(); }
        Self::with_base(BaseEncoding::StandardEncoding)
    }

    /// FontSpecific: each code stands for the character of the same number.
    pub fn font_specific() -> (r: Encoding)
        ensures
            r.wf(),
            r.base == Some(BaseEncoding::FontSpecific),
            r.table@ == base_table(BaseEncoding::FontSpecific),
            names_view(r.glyph_names@) == no_glyph_names(),
    {
        Self::with_base(BaseEncoding::FontSpecific)
    }

    /// The encoding a font's `/Encoding` entry describes: a name selects a
    /// base encoding, a dictionary is read by `from_encoding_dict`, anything
    /// else gives WinAnsiEncoding.
    pub fn from_cos(obj: &CosObject) -> (r: Encoding)
        ensures
            r.wf(),
            match obj@ {
                CosValue::Name(n) => r.base == Some(named_kind(n))
                    && r.table@ == base_table(named_kind(n))
                    && names_view(r.glyph_names@) == no_glyph_names(),
                CosValue::Dict(d) => r.base == Some(dict_base(d))
                    && (r.table@, names_view(r.glyph_names@)) == dict_encoding(d),
                _ => r.base == Some(BaseEncoding::WinAnsiEncoding)
                    && r.table@ == base_table(BaseEncoding::WinAnsiEncoding)
                    && names_view(r.glyph_names@) == no_glyph_names(),
            },
    {
        match obj {
            CosObject::Name(n) => match BaseEncoding::from_name(n.as_bytes()) {
                Some(BaseEncoding::WinAnsiEncoding) => Self::win_ansi(),
                Some(BaseEncoding::MacRomanEncoding) => Self::mac_roman(),
                Some(BaseEncoding::StandardEncoding) => Self::standard(),
                Some(BaseEncoding::PdfDocEncoding) => Self::win_ansi(),
                _ => Self::font_specific(),
            },
            CosObject::Dictionary(dict) => Self::from_encoding_dict(dict),
            _ => Self::win_ansi(),
        }
    }

    /// The encoding an encoding dictionary describes: `/BaseEncoding` (Mac
    /// Roman or Standard, else WinAnsi), then `/Differences` applied.
    pub fn from_encoding_dict(dict: &CosDictionary) -> (r: Encoding)
        ensures
            r.wf(),
            r.base == Some(dict_base(dict@)),
            (r.table@, names_view(r.glyph_names@)) == dict_encoding(dict@),
    {
        let k = match dict.get_name(&CosName::named("BaseEncoding")) {
            Some(n) => match BaseEncoding::from_name(n.as_bytes()) {
                Some(BaseEncoding::MacRomanEncoding) => BaseEncoding::MacRomanEncoding,
                Some(BaseEncoding::StandardEncoding) => BaseEncoding::StandardEncoding,
                _ => BaseEncoding::WinAnsiEncoding,
            },
            None => BaseEncoding::WinAnsiEncoding,
        };
        let mut enc = Self::with_base(k);
        match dict.get_array(&CosName::named("Differences")) {
            Some(diffs) => {
                let ghost items = view_objs(diffs@);
                let ghost t0 = enc.table@;
                let ghost n0 = names_view(enc.glyph_names@);
                proof { lemma_view_objs(diffs@); assert(items.skip(0) =~= items); }
                let mut code: u32 = 0;
                let mut i: usize = 0;
                while i < diffs.len()
                    invariant
                        i <= diffs@.len(),
                        items == view_objs(diffs@),
                        items.len() == diffs@.len(),
                        forall|j: int| 0 <= j < diffs@.len() ==> items[j] == view_obj(diffs@[j]),
                        enc.wf(),
                        enc.base == Some(k),
                        apply_differences(items.skip(i as int), code, enc.table@, names_view(enc.glyph_names@))
                            == apply_differences(items, 0, t0, n0),
                    decreases diffs.len() - i,
                {
                    let ghost rest = items.skip(i + 1);
                    proof { assert(items.skip(i as int).drop_first() =~= rest); }
                    match &diffs[i] {
                        CosObject::Integer(v) => {
                            code = *v as u32;
                        }
                        CosObject::Name(name) => {
                            if code < 256 {
                                let glyph = from_utf8_lossy(name.as_bytes());
                                let c = glyph_bytes_to_char(name.as_bytes());
                                let ghost old_names = enc.glyph_names@;
                                enc.glyph_names.set(code as usize, Some(glyph));
                                proof {
                                    assert(names_view(enc.glyph_names@) =~= names_view(old_names).update(code as int, Some(utf8_lossy(name.bytes@))));
                                }
                                match c {
                                    Some(ch) => { enc.table.set(code as usize, ch); }
                                    None => {}
                                }
                            }
                            code = if code == u32::MAX { 0 } else { code + 1 };
                        }
                        _ => {}
                    }
                    i += 1;
                }
                proof { assert(items.skip(diffs@.len() as int) =~= Seq::<CosValue>::empty()); }
            }
            None => {}
        }
        enc
    }

    /// The character of one code.
    pub fn decode_byte(&self, byte: u8) -> (r: char)
        requires self.wf(),
        ensures r == self.table@[byte as int],
    {
        self.table[byte as usize]
    }

    /// The characters of a run of codes.
    pub fn decode_bytes(&self, bytes: &[u8]) -> (r: String)
        requires self.wf(),
        ensures r@ == Seq::new(bytes@.len(), |i: int| self.table@[bytes@[i] as int]),
    {
        let mut s = String::new();
        let mut i: usize = 0;
        while i < bytes.len()
            invariant
                self.wf(),
                i <= bytes@.len(),
                s@ == Seq::new(i as nat, |j: int| self.table@[bytes@[j] as int]),
            decreases bytes.len() - i,
        {
            push_char(&mut s, self.decode_byte(bytes[i]));
            proof {
                assert(s@ =~= Seq::new((i + 1) as nat, |j: int| self.table@[bytes@[j] as int]));
            }
            i += 1;
        }
        s
    }

    /// The glyph name `/Differences` gave a code, if any.
    pub fn glyph_name(&self, code: u8) -> (r: Option<&str>)
        requires self.wf(),
        ensures
            match self.glyph_names@[code as int] {
                Some(s) => r is Some && r->Some_0@ == s@,
                None => r is None,
            },
    {
        match &self.glyph_names[code as usize] {
            Some(s) => Some(s.as_str()),
            None => None,
        }
    }
}

} // verus!

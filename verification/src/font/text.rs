//! Decoding the bytes of a text string to Unicode through a font: a simple
//! font's one-byte codes, a composite font's two-byte codes.

use vstd::prelude::*;
use crate::bytes::lit;
use crate::cos::{CosDictionary, CosName, CosObject, CosValue, ObjectId, dict_lookup};
use crate::document::{ObjectStore, store_find};
use crate::font::cmap::{ToUnicodeCMap, assoc_find, cmap_lookup, cmap_of_bytes, parse_to_unicode_cmap, range_fits};
use crate::font::encoding::{BaseEncoding, Encoding, base_table, dict_encoding, named_kind};
use crate::font::simple::{SimpleFontSubtype, simple_subtype_named};
use crate::text::{char_from_u32, from_utf8_lossy, is_scalar, push_char, push_str, utf8_lossy};

verus! {

/// A ToUnicode map seen as its mappings and ranges.
pub type CMapView = (Seq<(u32, Seq<char>)>, Seq<(u32, u32, u32)>);

pub open spec fn cmap_view(c: Option<ToUnicodeCMap>) -> Option<CMapView> {
    match c {
        Some(m) => Some((m.mappings_spec(), m.ranges_spec())),
        None => None,
    }
}

/// Looking `code` up in the map stays within 32 bits.
pub open spec fn code_fits(m: CMapView, code: u32) -> bool {
    assoc_find(m.0, code, 0) < 0 ==> range_fits(m.1, code)
}

/// The text of one byte of a simple font: the map's text for it, else the
/// encoding's character.
pub open spec fn simple_piece(enc: Seq<char>, m: CMapView, b: u8) -> Seq<char> {
    match cmap_lookup(m.0, m.1, b as u32) {
        Some(s) => s,
        None => seq![enc[b as int]],
    }
}

/// The text of `bytes` through a simple font with encoding table `enc` and
/// ToUnicode map `cm`: the map first, the encoding for codes it lacks; with
/// no map, the encoding alone.
pub open spec fn simple_text(enc: Seq<char>, cm: Option<CMapView>, bytes: Seq<u8>) -> Seq<char>
    decreases bytes.len(),
{
    match cm {
        None => Seq::new(bytes.len(), |i: int| enc[bytes[i] as int]),
        Some(m) => if bytes.len() == 0 {
            Seq::empty()
        } else {
            simple_text(enc, cm, bytes.drop_last()) + simple_piece(enc, m, bytes.last())
        },
    }
}

/// The codes of a composite font's string: big-endian byte pairs, a last
/// odd byte on its own.
pub open spec fn pair_codes(bytes: Seq<u8>) -> Seq<u32>
    decreases bytes.len(),
{
    if bytes.len() == 0 {
        Seq::empty()
    } else if bytes.len() == 1 {
        seq![bytes[0] as u32]
    } else {
        seq![(bytes[0] * 256 + bytes[1]) as u32] + pair_codes(bytes.skip(2))
    }
}

/// The character of a code point, as text (empty when it is none).
pub open spec fn code_char(code: u32) -> Seq<char> {
    if is_scalar(code) { seq![code as char] } else { Seq::empty() }
}

/// The text of composite-font codes through the map: the map's text, else
/// the code read as a character.
pub open spec fn cid_text(m: CMapView, codes: Seq<u32>) -> Seq<char>
    decreases codes.len(),
{
    if codes.len() == 0 {
        Seq::empty()
    } else {
        cid_text(m, codes.drop_last()) + match cmap_lookup(m.0, m.1, codes.last()) {
            Some(s) => s,
            None => code_char(codes.last()),
        }
    }
}

/// Without a map: whole byte pairs read as UCS-2 code points.
pub open spec fn ucs2_text(bytes: Seq<u8>) -> Seq<char>
    decreases bytes.len(),
{
    if bytes.len() < 2 {
        Seq::empty()
    } else {
        code_char((bytes[0] * 256 + bytes[1]) as u32) + ucs2_text(bytes.skip(2))
    }
}

/// The ToUnicode map a font dictionary names: its stream, given directly
/// or by reference, parsed.
pub open spec fn to_unicode_of(d: Seq<(Seq<u8>, CosValue)>, store: Seq<(ObjectId, CosValue)>) -> Option<CMapView> {
    match dict_lookup(d, lit("ToUnicode")) {
        Some(CosValue::Stream(_, data)) => Some(cmap_of_bytes(data)),
        Some(CosValue::Ref(n, g)) => match store_find(store, ObjectId { object_number: n, generation: g }) {
            Some(CosValue::Stream(_, data)) => Some(cmap_of_bytes(data)),
            _ => None,
        },
        _ => None,
    }
}

/// The text of a name entry (empty when absent, `default` then).
pub open spec fn name_text(d: Seq<(Seq<u8>, CosValue)>, key: Seq<u8>, default: Seq<char>) -> Seq<char> {
    match dict_lookup(d, key) {
        Some(CosValue::Name(n)) => utf8_lossy(n),
        _ => default,
    }
}

/// The character table of a font's `/Encoding` entry (WinAnsiEncoding when
/// absent or unreadable).
pub open spec fn encoding_table_of(v: Option<CosValue>) -> Seq<char> {
    match v {
        Some(CosValue::Name(n)) => base_table(named_kind(n)),
        Some(CosValue::Dict(d)) => dict_encoding(d).0,
        _ => base_table(BaseEncoding::WinAnsiEncoding),
    }
}

/// Reads the ToUnicode map a font dictionary names.
fn read_to_unicode(dict: &CosDictionary, store: &ObjectStore) -> (r: Option<ToUnicodeCMap>)
    ensures cmap_view(r) == to_unicode_of(dict@, store@),
{
    match dict.get(&CosName::named("ToUnicode")) {
        Some(CosObject::Stream(s)) => Some(parse_to_unicode_cmap(s.data.as_slice())),
        Some(CosObject::Reference(id)) => match store.get(id) {
            Some(CosObject::Stream(s)) => Some(parse_to_unicode_cmap(s.data.as_slice())),
            _ => None,
        },
        _ => None,
    }
}

/// The text of a name entry, or `default`.
fn read_name_text(dict: &CosDictionary, key: &str, default: &str) -> (r: String)
    ensures r@ == name_text(dict@, lit(key), default@),
{
    match dict.get(&CosName::named(key)) {
        Some(CosObject::Name(n)) => from_utf8_lossy(n.as_bytes()),
        _ => crate::text::owned_text(default),
    }
}

/// The text-decoding part of a simple (one-byte) font: its subtype, name,
/// encoding and ToUnicode map.
pub struct SimpleFont {
    pub subtype: SimpleFontSubtype,
    pub base_font: String,
    pub encoding: Encoding,
    pub to_unicode: Option<ToUnicodeCMap>,
    pub descriptor_ref: Option<ObjectId>,
}

impl SimpleFont {
    /// Every byte can be looked up in the map without overflow.
    pub open spec fn fits(&self, bytes: Seq<u8>) -> bool {
        match cmap_view(self.to_unicode) {
            Some(m) => forall|i: int| 0 <= i < bytes.len() ==> code_fits(m, #[trigger] bytes[i] as u32),
            None => true,
        }
    }

    /// Reads a simple font from its dictionary: `/Subtype` (else `None`),
    /// `/BaseFont`, `/Encoding` (WinAnsiEncoding when absent), the
    /// `/ToUnicode` stream (directly or by reference in `store`) and the
    /// `/FontDescriptor` reference.
    pub fn from_dict(dict: &CosDictionary, store: &ObjectStore) -> (r: Option<SimpleFont>)
        ensures
            match dict_lookup(dict@, lit("Subtype")) {
                Some(CosValue::Name(n)) => match simple_subtype_named(n) {
                    Some(st) => r matches Some(f) && f.subtype == st
                        && f.base_font@ == name_text(dict@, lit("BaseFont"), Seq::empty())
                        && f.encoding.wf() && f.encoding.table@ == encoding_table_of(dict_lookup(dict@, lit("Encoding")))
                        && cmap_view(f.to_unicode) == to_unicode_of(dict@, store@)
                        && f.descriptor_ref == match dict_lookup(dict@, lit("FontDescriptor")) {
                            Some(CosValue::Ref(n, g)) => Some(ObjectId { object_number: n, generation: g }),
                            _ => None,
                        },
                    None => r is None,
                },
                _ => r is None,
            },
    {
        let subtype = match dict.get(&CosName::named("Subtype")) {
            Some(CosObject::Name(n)) => match SimpleFontSubtype::from_name(n.as_bytes()) {
                Some(st) => st,
                None => return None,
            },
            _ => return None,
        };
        let base_font = read_name_text(dict, "BaseFont", "");
        proof { reveal_strlit(""); }
        let encoding = match dict.get(&CosName::named("Encoding")) {
            Some(obj) => Encoding::from_cos(obj),
            None => Encoding::win_ansi(),
        };
        let to_unicode = read_to_unicode(dict, store);
        let descriptor_ref = match dict.get(&CosName::named("FontDescriptor")) {
            Some(CosObject::Reference(id)) => Some(*id),
            _ => None,
        };
        Some(SimpleFont { subtype, base_font, encoding, to_unicode, descriptor_ref })
    }

    /// Decodes a string: the ToUnicode map first, the encoding for codes it
    /// lacks (see `simple_text`).
    pub fn decode_bytes(&self, bytes: &[u8]) -> (r: String)
        requires self.encoding.wf(), self.fits(bytes@),
        ensures r@ == simple_text(self.encoding.table@, cmap_view(self.to_unicode), bytes@),
    {
        match &self.to_unicode {
            Some(cmap) => {
                let ghost m: CMapView = (cmap.mappings_spec(), cmap.ranges_spec());
                let mut out = String::new();
                let mut i: usize = 0;
                while i < bytes.len()
                    invariant
                        i <= bytes@.len(),
                        self.encoding.wf(),
                        self.fits(bytes@),
                        self.to_unicode == Some(*cmap),
                        m == (cmap.mappings_spec(), cmap.ranges_spec()),
                        out@ == simple_text(self.encoding.table@, Some(m), bytes@.take(i as int)),
                    decreases bytes.len() - i,
                {
                    let b = bytes[i];
                    proof {
                        assert(code_fits(m, bytes@[i as int] as u32));
                        assert(bytes@.take(i + 1).drop_last() =~= bytes@.take(i as int));
                        assert(bytes@.take(i + 1).last() == b);
                    }
                    match cmap.to_unicode(b as u32) {
                        Some(s) => push_str(&mut out, s.as_str()),
                        None => push_char(&mut out, self.encoding.decode_byte(b)),
                    }
                    proof {
                        assert(out@ =~= simple_text(self.encoding.table@, Some(m), bytes@.take(i + 1)));
                    }
                    i += 1;
                }
                proof { assert(bytes@.take(bytes@.len() as int) =~= bytes@); }
                out
            }
            None => self.encoding.decode_bytes(bytes),
        }
    }

    /// The font's PostScript name.
    pub fn base_font_name(&self) -> (r: &str)
        ensures r@ == self.base_font@,
    {
        self.base_font.as_str()
    }

    /// `true` when the font has a ToUnicode map.
    pub fn has_to_unicode(&self) -> (r: bool)
        ensures r == self.to_unicode is Some,
    {
        self.to_unicode.is_some()
    }
}

/// The text-decoding part of a composite (Type0) font: its name, CMap name
/// and ToUnicode map.
pub struct Type0Font {
    pub base_font: String,
    pub encoding_name: String,
    pub to_unicode: Option<ToUnicodeCMap>,
}

impl Type0Font {
    /// Every code of `bytes` can be looked up in the map without overflow.
    pub open spec fn fits(&self, bytes: Seq<u8>) -> bool {
        match cmap_view(self.to_unicode) {
            Some(m) => forall|i: int| 0 <= i < pair_codes(bytes).len() ==> code_fits(m, #[trigger] pair_codes(bytes)[i]),
            None => true,
        }
    }

    /// Reads a composite font from its dictionary: `/BaseFont`, `/Encoding`
    /// (`Identity-H` when absent) and the `/ToUnicode` stream (directly or
    /// by reference in `store`).
    pub fn from_dict(dict: &CosDictionary, store: &ObjectStore) -> (r: Option<Type0Font>)
        ensures
            r matches Some(f) && f.base_font@ == name_text(dict@, lit("BaseFont"), Seq::empty())
                && f.encoding_name@ == name_text(dict@, lit("Encoding"), "Identity-H"@)
                && cmap_view(f.to_unicode) == to_unicode_of(dict@, store@),
    {
        let base_font = read_name_text(dict, "BaseFont", "");
        proof { reveal_strlit(""); }
        let encoding_name = read_name_text(dict, "Encoding", "Identity-H");
        let to_unicode = read_to_unicode(dict, store);
        Some(Type0Font { base_font, encoding_name, to_unicode })
    }

    /// `true` for the identity CMaps `Identity-H` and `Identity-V`.
    pub fn is_identity_encoding(&self) -> (r: bool)
        ensures r == (self.encoding_name@ == "Identity-H"@ || self.encoding_name@ == "Identity-V"@),
    {
        crate::text::str_eq(self.encoding_name.as_str(), "Identity-H")
            || crate::text::str_eq(self.encoding_name.as_str(), "Identity-V")
    }

    /// Decodes a string of two-byte codes: through the ToUnicode map (a
    /// code it lacks read as a code point, a last odd byte as a one-byte
    /// code), or without a map as UCS-2 pairs.
    pub fn decode_bytes(&self, bytes: &[u8]) -> (r: String)
        requires self.fits(bytes@),
        ensures
            r@ == match cmap_view(self.to_unicode) {
                Some(m) => cid_text(m, pair_codes(bytes@)),
                None => ucs2_text(bytes@),
            },
    {
        match &self.to_unicode {
            Some(cmap) => {
                let ghost m: CMapView = (cmap.mappings_spec(), cmap.ranges_spec());
                let mut out = String::new();
                let mut i: usize = 0;
                let ghost mut done: Seq<u32> = Seq::empty();
                proof {
                    assert(bytes@.skip(0) =~= bytes@);
                    assert(done + pair_codes(bytes@) =~= pair_codes(bytes@));
                }
                while i < bytes.len()
                    invariant
                        i <= bytes@.len(),
                        self.fits(bytes@),
                        self.to_unicode == Some(*cmap),
                        m == (cmap.mappings_spec(), cmap.ranges_spec()),
                        done + pair_codes(bytes@.skip(i as int)) == pair_codes(bytes@),
                        out@ == cid_text(m, done),
                    decreases bytes.len() - i,
                {
                    let ghost rest = bytes@.skip(i as int);
                    let code: u32 = if i + 1 < bytes.len() {
                        let c = (bytes[i] as u32) * 256 + bytes[i + 1] as u32;
                        proof {
                            assert(rest.skip(2) =~= bytes@.skip(i + 2));
                            assert(pair_codes(rest) == seq![c] + pair_codes(bytes@.skip(i + 2)));
                        }
                        i += 2;
                        c
                    } else {
                        let c = bytes[i] as u32;
                        proof {
                            assert(rest.len() == 1);
                            assert(pair_codes(rest) == seq![c]);
                            assert(bytes@.skip(i + 1).len() == 0);
                            assert(pair_codes(bytes@.skip(i + 1)) =~= Seq::<u32>::empty());
                        }
                        i += 1;
                        c
                    };
                    proof {
                        let k = done.len() as int;
                        assert(pair_codes(bytes@)[k] == code);
                        assert(code_fits(m, pair_codes(bytes@)[k]));
                        assert((done + seq![code]) + pair_codes(bytes@.skip(i as int)) =~= done + pair_codes(rest));
                    }
                    let ghost before = out@;
                    match cmap.to_unicode(code) {
                        Some(s) => push_str(&mut out, s.as_str()),
                        None => match char_from_u32(code) {
                            Some(c) => push_char(&mut out, c),
                            None => {}
                        },
                    }
                    proof {
                        let d0 = done;
                        done = done.push(code);
                        assert(done.drop_last() =~= d0);
                        assert(done.last() == code);
                        assert(out@ =~= cid_text(m, done));
                    }
                }
                proof {
                    assert(bytes@.skip(bytes@.len() as int).len() == 0);
                    assert(pair_codes(bytes@.skip(bytes@.len() as int)) =~= Seq::<u32>::empty());
                    assert(done =~= pair_codes(bytes@));
                }
                out
            }
            None => {
                let mut out = String::new();
                let mut i: usize = 0;
                proof {
                    assert(bytes@.skip(0) =~= bytes@);
                    assert(out@ + ucs2_text(bytes@) =~= ucs2_text(bytes@));
                }
                while bytes.len() - i >= 2
                    invariant
                        i <= bytes@.len(),
                        out@ + ucs2_text(bytes@.skip(i as int)) == ucs2_text(bytes@),
                    decreases bytes.len() - i,
                {
                    let code = (bytes[i] as u32) * 256 + bytes[i + 1] as u32;
                    let ghost rest = bytes@.skip(i as int);
                    proof { assert(rest.skip(2) =~= bytes@.skip(i + 2)); }
                    let ghost before = out@;
                    match char_from_u32(code) {
                        Some(c) => push_char(&mut out, c),
                        None => {}
                    }
                    proof {
                        assert(out@ == before + code_char(code));
                    }
                    i += 2;
                }
                proof {
                    assert(ucs2_text(bytes@.skip(i as int)) =~= Seq::<char>::empty());
                    assert(out@ + Seq::<char>::empty() =~= out@);
                }
                out
            }
        }
    }

    /// The font's PostScript name.
    pub fn base_font_name(&self) -> (r: &str)
        ensures r@ == self.base_font@,
    {
        self.base_font.as_str()
    }

    /// `true` when the font has a ToUnicode map.
    pub fn has_to_unicode(&self) -> (r: bool)
        ensures r == self.to_unicode is Some,
    {
        self.to_unicode.is_some()
    }
}

} // verus!

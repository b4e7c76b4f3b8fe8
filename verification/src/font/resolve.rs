//! Fonts by kind, and the fonts a page's resources name: a font dictionary
//! read as a simple or a composite font, and the `/Font` entries of a
//! `/Resources` dictionary read by resource name.

use vstd::prelude::*;
use vstd::std_specs::iter::IteratorSpec;
use crate::bytes::lit;
use crate::cos::{CosDictionary, CosName, CosObject, CosValue, ObjectId, dict_lookup, view_entries};
use crate::document::{ObjectStore, store_find};
use crate::font::simple::simple_subtype_named;
use crate::font::text::{SimpleFont, Type0Font, cid_text, cmap_view, encoding_table_of, name_text, pair_codes,
    simple_text, to_unicode_of, ucs2_text};
use crate::text::{from_utf8_lossy, str_eq, utf8_lossy};

verus! {

/// A font read from its dictionary: a simple (one-byte) font or a
/// composite (Type0) font.
pub enum PdfFont {
    Simple(SimpleFont),
    Type0(Type0Font),
}

/// The `/Subtype` name of a dictionary.
pub open spec fn subtype_of(d: Seq<(Seq<u8>, CosValue)>) -> Option<Seq<u8>> {
    match dict_lookup(d, lit("Subtype")) {
        Some(CosValue::Name(n)) => Some(n),
        _ => None,
    }
}

/// A dictionary a font can be read from: `/Subtype` `Type0`, or one of the
/// simple font subtypes.
pub open spec fn readable(d: Seq<(Seq<u8>, CosValue)>) -> bool {
    match subtype_of(d) {
        Some(n) => n == lit("Type0") || simple_subtype_named(n) is Some,
        None => false,
    }
}

/// `f` is the simple font `SimpleFont::from_dict` reads from `d`.
pub open spec fn simple_read(d: Seq<(Seq<u8>, CosValue)>, store: Seq<(ObjectId, CosValue)>, f: SimpleFont) -> bool {
    &&& subtype_of(d) matches Some(n) && simple_subtype_named(n) == Some(f.subtype)
    &&& f.base_font@ == name_text(d, lit("BaseFont"), Seq::empty())
    &&& f.encoding.wf()
    &&& f.encoding.table@ == encoding_table_of(dict_lookup(d, lit("Encoding")))
    &&& cmap_view(f.to_unicode) == to_unicode_of(d, store)
    &&& f.descriptor_ref == match dict_lookup(d, lit("FontDescriptor")) {
        Some(CosValue::Ref(n, g)) => Some(ObjectId { object_number: n, generation: g }),
        _ => None,
    }
}

/// `f` is the composite font `Type0Font::from_dict` reads from `d`.
pub open spec fn type0_read(d: Seq<(Seq<u8>, CosValue)>, store: Seq<(ObjectId, CosValue)>, f: Type0Font) -> bool {
    &&& f.base_font@ == name_text(d, lit("BaseFont"), Seq::empty())
    &&& f.encoding_name@ == name_text(d, lit("Encoding"), "Identity-H"@)
    &&& cmap_view(f.to_unicode) == to_unicode_of(d, store)
}

/// `f` is the font read from `d`: composite for `/Subtype /Type0`, simple
/// otherwise.
pub open spec fn font_read(d: Seq<(Seq<u8>, CosValue)>, store: Seq<(ObjectId, CosValue)>, f: PdfFont) -> bool {
    match f {
        PdfFont::Type0(t) => subtype_of(d) == Some(lit("Type0")) && type0_read(d, store, t),
        PdfFont::Simple(s) => subtype_of(d) != Some(lit("Type0")) && simple_read(d, store, s),
    }
}

impl PdfFont {
    /// The font's encoding is well formed (simple fonts).
    pub open spec fn wf(&self) -> bool {
        match self {
            PdfFont::Simple(f) => f.encoding.wf(),
            PdfFont::Type0(_) => true,
        }
    }

    /// Every code of `bytes` can be looked up in the font's map.
    pub open spec fn fits(&self, bytes: Seq<u8>) -> bool {
        match self {
            PdfFont::Simple(f) => f.fits(bytes),
            PdfFont::Type0(f) => f.fits(bytes),
        }
    }

    /// The text of `bytes` through the font.
    pub open spec fn text_of(&self, bytes: Seq<u8>) -> Seq<char> {
        match self {
            PdfFont::Simple(f) => simple_text(f.encoding.table@, cmap_view(f.to_unicode), bytes),
            PdfFont::Type0(f) => match cmap_view(f.to_unicode) {
                Some(m) => cid_text(m, pair_codes(bytes)),
                None => ucs2_text(bytes),
            },
        }
    }

    /// Reads a font from its dictionary (see `font_read`); `None` when the
    /// `/Subtype` is neither `Type0` nor a simple font subtype.
    pub fn from_dict(dict: &CosDictionary, store: &ObjectStore) -> (r: Option<PdfFont>)
        ensures
            readable(dict@) ==> (r matches Some(f) && font_read(dict@, store@, f) && f.wf()),
            !readable(dict@) ==> r is None,
    {
        let is_type0 = match dict.get(&CosName::subtype()) {
            Some(CosObject::Name(n)) => crate::bytes::eq_str(n.as_bytes(), "Type0"),
            _ => false,
        };
        if is_type0 {
            proof {
                reveal_strlit("Type0");
                reveal_strlit("Type1");
                reveal_strlit("MMType1");
                reveal_strlit("TrueType");
                reveal_strlit("Type3");
            }
            match Type0Font::from_dict(dict, store) {
                Some(f) => Some(PdfFont::Type0(f)),
                None => None,
            }
        } else {
            match SimpleFont::from_dict(dict, store) {
                Some(f) => Some(PdfFont::Simple(f)),
                None => None,
            }
        }
    }

    /// Decodes a string through the font (see `text_of`).
    pub fn decode_bytes(&self, bytes: &[u8]) -> (r: String)
        requires self.wf(), self.fits(bytes@),
        ensures r@ == self.text_of(bytes@),
    {
        match self {
            PdfFont::Simple(f) => f.decode_bytes(bytes),
            PdfFont::Type0(f) => f.decode_bytes(bytes),
        }
    }

    /// The font's PostScript name.
    pub fn base_font_name(&self) -> (r: &str)
        ensures r@ == match self {
            PdfFont::Simple(f) => f.base_font@,
            PdfFont::Type0(f) => f.base_font@,
        },
    {
        match self {
            PdfFont::Simple(f) => f.base_font_name(),
            PdfFont::Type0(f) => f.base_font_name(),
        }
    }

    /// `true` for a simple font.
    pub fn is_simple(&self) -> (r: bool)
        ensures r == self is Simple,
    {
        match self {
            PdfFont::Simple(_) => true,
            PdfFont::Type0(_) => false,
        }
    }

    /// `true` for a composite font.
    pub fn is_type0(&self) -> (r: bool)
        ensures r == self is Type0,
    {
        match self {
            PdfFont::Simple(_) => false,
            PdfFont::Type0(_) => true,
        }
    }

    /// The simple font, when it is one.
    pub fn as_simple(&self) -> (r: Option<&SimpleFont>)
        ensures match self {
            PdfFont::Simple(f) => r == Some(f),
            PdfFont::Type0(_) => r is None,
        },
    {
        match self {
            PdfFont::Simple(f) => Some(f),
            PdfFont::Type0(_) => None,
        }
    }

    /// The composite font, when it is one.
    pub fn as_type0(&self) -> (r: Option<&Type0Font>)
        ensures match self {
            PdfFont::Type0(f) => r == Some(f),
            PdfFont::Simple(_) => r is None,
        },
    {
        match self {
            PdfFont::Type0(f) => Some(f),
            PdfFont::Simple(_) => None,
        }
    }

    /// `true` when the font has a ToUnicode map.
    pub fn has_to_unicode(&self) -> (r: bool)
        ensures r == match self {
            PdfFont::Simple(f) => f.to_unicode is Some,
            PdfFont::Type0(f) => f.to_unicode is Some,
        },
    {
        match self {
            PdfFont::Simple(f) => f.has_to_unicode(),
            PdfFont::Type0(f) => f.has_to_unicode(),
        }
    }
}

/// The font dictionary a `/Font` entry gives: inline, or the stored
/// dictionary its reference names.
pub open spec fn font_dict_of(store: Seq<(ObjectId, CosValue)>, v: CosValue) -> Option<Seq<(Seq<u8>, CosValue)>> {
    match v {
        CosValue::Dict(d) => Some(d),
        CosValue::Ref(n, g) => match store_find(store, ObjectId { object_number: n, generation: g }) {
            Some(CosValue::Dict(d)) => Some(d),
            _ => None,
        },
        _ => None,
    }
}

/// Entry `j` of the `/Font` dictionary `fd` gives a font.
pub open spec fn yields(fd: Seq<(Seq<u8>, CosValue)>, store: Seq<(ObjectId, CosValue)>, j: int) -> bool {
    font_dict_of(store, fd[j].1) matches Some(d) && readable(d)
}

/// The last of the first `n` entries that gives a font under the resource
/// name `name` (names read as UTF-8, leniently); -1 when there is none.
pub open spec fn last_yield(fd: Seq<(Seq<u8>, CosValue)>, store: Seq<(ObjectId, CosValue)>, name: Seq<char>, n: int) -> int
    decreases n,
{
    if n <= 0 {
        -1
    } else if yields(fd, store, n - 1) && utf8_lossy(fd[n - 1].0) == name {
        n - 1
    } else {
        last_yield(fd, store, name, n - 1)
    }
}

/// The fonts of the first `n` entries of `fd`: one per resource name, each
/// read from the last entry under that name that gives a font.
pub open spec fn resolved(fonts: Seq<(String, PdfFont)>, fd: Seq<(Seq<u8>, CosValue)>, store: Seq<(ObjectId, CosValue)>, n: int) -> bool {
    &&& forall|a: int, b: int| 0 <= a < b < fonts.len() ==> (#[trigger] fonts[a]).0@ != (#[trigger] fonts[b]).0@
    &&& forall|k: int| 0 <= k < fonts.len() ==> {
        let j = last_yield(fd, store, (#[trigger] fonts[k]).0@, n);
        &&& 0 <= j < n
        &&& font_read(font_dict_of(store, fd[j].1)->Some_0, store, fonts[k].1)
        &&& fonts[k].1.wf()
    }
    &&& forall|name: Seq<char>| #[trigger] last_yield(fd, store, name, n) >= 0 ==> exists|k: int| 0 <= k < fonts.len() && fonts[k].0@ == name
}

/// The `/Font` entries of a `/Resources` dictionary (none when it has no
/// inline `/Font` dictionary).
pub open spec fn font_entries(res: Seq<(Seq<u8>, CosValue)>) -> Seq<(Seq<u8>, CosValue)> {
    match dict_lookup(res, lit("Font")) {
        Some(CosValue::Dict(f)) => f,
        _ => Seq::empty(),
    }
}

/// The fonts a `/Resources` dictionary names, by resource name.
pub struct FontResolver {
    pub fonts: Vec<(String, PdfFont)>,
}

impl FontResolver {
    /// Reads every font of the resources' `/Font` dictionary, inline or by
    /// reference in `store`; an entry that gives no font is passed over,
    /// and of entries under the same name the last one counts (see
    /// `resolved`).
    pub fn from_resources(resources: &CosDictionary, store: &ObjectStore) -> (r: FontResolver)
        ensures resolved(r.fonts@, font_entries(resources@), store@, font_entries(resources@).len() as int),
    {
        let mut fonts: Vec<(String, PdfFont)> = Vec::new();
        let font_dict = match resources.get(&CosName::named("Font")) {
            Some(CosObject::Dictionary(d)) => d,
            _ => {
                proof { assert(font_entries(resources@) =~= Seq::<(Seq<u8>, CosValue)>::empty()); }
                return FontResolver { fonts };
            }
        };
        let ghost fd = font_dict@;
        let ghost st = store@;
        assert(fd == font_entries(resources@));
        let es = font_dict.as_slice();
        proof { crate::cos::lemma_view_entries(es@); }
        let mut i: usize = 0;
        while i < es.len()
            invariant
                i <= es@.len(),
                fd == view_entries(es@),
                fd.len() == es@.len(),
                st == store@,
                forall|q: int| 0 <= q < es@.len() ==> fd[q] == ((#[trigger] es@[q]).0.bytes@, es@[q].1@),
                resolved(fonts@, fd, st, i as int),
            decreases es.len() - i,
        {
            let (key, val) = &es[i];
            assert(fd[i as int] == (key.bytes@, val@));
            let dict: Option<&CosDictionary> = match val {
                CosObject::Dictionary(d) => Some(d),
                CosObject::Reference(id) => match store.get(id) {
                    Some(CosObject::Dictionary(d)) => Some(d),
                    _ => None,
                },
                _ => None,
            };
            assert(match dict { Some(d) => font_dict_of(st, fd[i as int].1) == Some(d@), None => font_dict_of(st, fd[i as int].1) is None });
            let font = match dict {
                Some(d) => PdfFont::from_dict(d, store),
                None => None,
            };
            let ghost prev = fonts@;
            match font {
                Some(f) => {
                    let name = from_utf8_lossy(key.as_bytes());
                    let ghost nm = name@;
                    let ghost fv = f;
                    assert(yields(fd, st, i as int));
                    let mut p: usize = 0;
                    while p < fonts.len()
                        invariant
                            p <= fonts@.len(),
                            fonts@ == prev,
                            nm == name@,
                            forall|q: int| 0 <= q < p ==> (#[trigger] fonts@[q]).0@ != nm,
                        ensures
                            p <= fonts@.len(),
                            fonts@ == prev,
                            forall|q: int| 0 <= q < p ==> (#[trigger] fonts@[q]).0@ != nm,
                            p < fonts@.len() ==> fonts@[p as int].0@ == nm,
                        decreases fonts.len() - p,
                    {
                        let fp: &String = &fonts[p].0;
                        let ns = name.as_str();
                        let eq = str_eq(fp.as_str(), ns);
                        assert(fp@ == fonts@[p as int].0@);
                        assert(ns@ == nm);
                        if eq {
                            break;
                        }
                        p += 1;
                    }
                    let found = p < fonts.len();
                    proof {
                        assert forall|q: int| 0 <= q < prev.len() && q != p implies (#[trigger] prev[q]).0@ != nm by {
                            if q > p && found {
                                assert(prev[p as int].0@ != prev[q].0@);
                            }
                        }
                    }
                    if found {
                        fonts.set(p, (name, f));
                    } else {
                        fonts.push((name, f));
                    }
                    proof {
                        let nf = fonts@;
                        let n1 = (i + 1) as int;
                        assert forall|name2: Seq<char>| name2 != nm implies
                            last_yield(fd, st, name2, n1) == last_yield(fd, st, name2, i as int) by {}
                        assert(last_yield(fd, st, nm, n1) == i as int);
                        assert forall|a: int, b: int| 0 <= a < b < nf.len() implies (#[trigger] nf[a]).0@ != (#[trigger] nf[b]).0@ by {
                            if a < prev.len() && b < prev.len() {
                                if found && a == p {
                                    assert(nf[a].0@ == nm && nf[b] == prev[b]);
                                } else if found && b == p {
                                    assert(nf[b].0@ == nm && nf[a] == prev[a]);
                                } else {
                                    assert(nf[a] == prev[a] && nf[b] == prev[b]);
                                }
                            } else {
                                assert(b == prev.len() && !found);
                                assert(nf[a] == prev[a]);
                                assert(nf[b].0@ == nm);
                            }
                        }
                        assert forall|k: int| 0 <= k < nf.len() implies {
                            let j = last_yield(fd, st, (#[trigger] nf[k]).0@, n1);
                            &&& 0 <= j < n1
                            &&& font_read(font_dict_of(st, fd[j].1)->Some_0, st, nf[k].1)
                            &&& nf[k].1.wf()
                        } by {
                            if (found && k == p) || k == prev.len() {
                                assert(nf[k].0@ == nm && nf[k].1 == fv);
                            } else {
                                assert(nf[k] == prev[k]);
                                assert(k != p);
                                assert(prev[k].0@ != nm);
                            }
                        }
                        assert forall|name2: Seq<char>| #[trigger] last_yield(fd, st, name2, n1) >= 0
                            implies exists|k: int| 0 <= k < nf.len() && nf[k].0@ == name2 by {
                            if name2 == nm {
                                if found { assert(nf[p as int].0@ == nm); } else { assert(nf[prev.len() as int].0@ == nm); }
                            } else {
                                assert(last_yield(fd, st, name2, i as int) >= 0);
                                let k = choose|k: int| 0 <= k < prev.len() && prev[k].0@ == name2;
                                assert(nf[k].0@ == name2);
                            }
                        }
                        assert(resolved(nf, fd, st, n1));
                    }
                }
                None => {
                    proof {
                        assert(!yields(fd, st, i as int));
                        assert forall|name2: Seq<char>| #[trigger] last_yield(fd, st, name2, (i + 1) as int) == last_yield(fd, st, name2, i as int) by {}
                        assert(resolved(fonts@, fd, st, (i + 1) as int));
                    }
                }
            }
            i += 1;
        }
        FontResolver { fonts }
    }

    /// The font under resource name `name` (the name a `Tf` operator uses).
    pub fn get_font(&self, name: &str) -> (r: Option<&PdfFont>)
        ensures
            match r {
                Some(f) => exists|k: int| 0 <= k < self.fonts@.len() && self.fonts@[k].0@ == name@ && f == &self.fonts@[k].1,
                None => forall|k: int| 0 <= k < self.fonts@.len() ==> (#[trigger] self.fonts@[k]).0@ != name@,
            },
    {
        let mut p: usize = 0;
        while p < self.fonts.len()
            invariant p <= self.fonts@.len(), forall|q: int| 0 <= q < p ==> (#[trigger] self.fonts@[q]).0@ != name@,
            decreases self.fonts.len() - p,
        {
            if str_eq(self.fonts[p].0.as_str(), name) {
                return Some(&self.fonts[p].1);
            }
            p += 1;
        }
        None
    }

    /// Number of fonts read.
    pub fn font_count(&self) -> (r: usize)
        ensures r == self.fonts@.len(),
    {
        self.fonts.len()
    }

    /// The `(name, font)` pairs.
    pub fn iter(&self) -> (r: std::slice::Iter<'_, (String, PdfFont)>)
        ensures
            r.remaining().len() == self.fonts@.len(),
            forall|i: int| 0 <= i < self.fonts@.len() ==> *(#[trigger] r.remaining()[i]) == self.fonts@[i],
    {
        proof { broadcast use vstd::std_specs::slice::axiom_spec_slice_iter; }
        self.fonts.as_slice().iter()
    }
}

} // verus!

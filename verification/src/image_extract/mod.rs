//! Images: the parameters read from an image's dictionary, the inline images
//! (`BI ... ID ... EI`) found in content bytes, and decoding to pixels.


pub mod decode;
pub mod export;
pub mod lcms;
pub mod xobject;

use vstd::prelude::*;
use crate::bytes::{clone_bytes, eq_str, lit};
use crate::cos::{CosDictionary, CosName, CosObject, CosValue, ObjectId, dict_insert, dict_lookup, view_obj, view_objs};
use crate::parser::parser::{ParseOut, Parser, parse_value};
use crate::text::{decimal_text, from_utf8_lossy, from_utf8_strict, owned_text, push_digits, push_str, str_eq, utf8_lossy, utf8_text};

verus! {

/// The file formats an image can be written in.
#[derive(Debug, Clone, Copy, PartialEq, Eq, Structural)]
pub enum ImageExportFormat {
    Png,
    Jpeg,
    Tiff,
}

/// A soft mask (`/SMask`) of an image.
#[derive(Debug)]
pub struct ImageMask {
    pub width: u32,
    pub height: u32,
    pub bits_per_component: u8,
    pub data: Vec<u8>,
    pub filter: Option<CosObject>,
}

/// An image found on a page: an image object or an inline image.
#[derive(Debug)]
pub struct PdImage {
    pub object_id: Option<ObjectId>,
    pub resource_name: String,
    pub width: u32,
    pub height: u32,
    pub bits_per_component: u8,
    pub color_space: Option<String>,
    pub color_space_obj: Option<CosObject>,
    pub smask: Option<ImageMask>,
    pub filter_names: Vec<String>,
    pub data: Vec<u8>,
    pub filter: Option<CosObject>,
}

/// The model of an optional object.
pub open spec fn opt_view(o: Option<CosObject>) -> Option<CosValue> {
    match o {
        Some(x) => Some(view_obj(x)),
        None => None,
    }
}

/// The model of an optional borrowed object.
pub open spec fn opt_ref_view(o: Option<&CosObject>) -> Option<CosValue> {
    match o {
        Some(x) => Some(view_obj(*x)),
        None => None,
    }
}

/// The text of an optional string.
pub open spec fn opt_text(s: Option<String>) -> Option<Seq<char>> {
    match s {
        Some(t) => Some(t@),
        None => None,
    }
}

/// The texts of a list of strings.
pub open spec fn texts(v: Seq<String>) -> Seq<Seq<char>> {
    Seq::new(v.len(), |i: int| v[i]@)
}

/// The colour-space name of a `/ColorSpace` value: the name itself, or the
/// first element of an array when it is a name.
pub open spec fn color_space_name(v: Option<CosValue>) -> Option<Seq<char>> {
    match v {
        Some(CosValue::Name(n)) => Some(utf8_lossy(n)),
        Some(CosValue::Array(a)) => if a.len() > 0 {
            match a[0] {
                CosValue::Name(n) => Some(utf8_lossy(n)),
                _ => None,
            }
        } else {
            None
        },
        _ => None,
    }
}

/// The names among `a`, in order, as text.
pub open spec fn names_in(a: Seq<CosValue>) -> Seq<Seq<char>>
    decreases a.len(),
{
    if a.len() == 0 {
        Seq::empty()
    } else {
        names_in(a.drop_last()) + match a.last() {
            CosValue::Name(n) => seq![utf8_lossy(n)],
            _ => Seq::empty(),
        }
    }
}

/// The filter names of a `/Filter` value: one name, or the names of an array.
pub open spec fn filter_name_list(v: Option<CosValue>) -> Seq<Seq<char>> {
    match v {
        Some(CosValue::Name(n)) => seq![utf8_lossy(n)],
        Some(CosValue::Array(a)) => names_in(a),
        _ => Seq::empty(),
    }
}

/// The integer under `key`, or `dflt`.
pub open spec fn int_or(d: Seq<(Seq<u8>, CosValue)>, key: Seq<u8>, dflt: int) -> int {
    match dict_lookup(d, key) {
        Some(CosValue::Integer(n)) => n,
        _ => dflt,
    }
}

/// A size: negative values become 0, then kept in 32 bits.
pub open spec fn size_u32(v: int) -> u32 {
    (if v < 0 { 0 } else { v }) as u32
}

/// Bits per component: brought into `0..=255`.
pub open spec fn bpc_u8(v: int) -> u8 {
    (if v < 0 { 0 } else if v > 255 { 255 } else { v }) as u8
}

/// The parameters of `img` are those of the image dictionary `d`.
pub open spec fn params_from(img: PdImage, d: Seq<(Seq<u8>, CosValue)>) -> bool {
    &&& img.width == size_u32(int_or(d, lit("Width"), 0))
    &&& img.height == size_u32(int_or(d, lit("Height"), 0))
    &&& img.bits_per_component == bpc_u8(int_or(d, lit("BitsPerComponent"), 8))
    &&& opt_view(img.color_space_obj) == dict_lookup(d, lit("ColorSpace"))
    &&& opt_text(img.color_space) == color_space_name(dict_lookup(d, lit("ColorSpace")))
    &&& opt_view(img.filter) == dict_lookup(d, lit("Filter"))
    &&& texts(img.filter_names@) == filter_name_list(dict_lookup(d, lit("Filter")))
}

impl PdImage {
    pub fn object_id(&self) -> (r: Option<ObjectId>)
        ensures r == self.object_id,
    {
        self.object_id
    }

    pub fn resource_name(&self) -> (r: &str)
        ensures r@ == self.resource_name@,
    {
        self.resource_name.as_str()
    }

    pub fn width(&self) -> (r: u32)
        ensures r == self.width,
    {
        self.width
    }

    pub fn height(&self) -> (r: u32)
        ensures r == self.height,
    {
        self.height
    }

    pub fn bits_per_component(&self) -> (r: u8)
        ensures r == self.bits_per_component,
    {
        self.bits_per_component
    }

    pub fn color_space(&self) -> (r: Option<&str>)
        ensures
            match self.color_space {
                Some(s) => r is Some && r->Some_0@ == s@,
                None => r is None,
            },
    {
        match &self.color_space {
            Some(s) => Some(s.as_str()),
            None => None,
        }
    }

    pub fn filter_names(&self) -> (r: &[String])
        ensures r@ == self.filter_names@,
    {
        self.filter_names.as_slice()
    }

    pub fn encoded_bytes(&self) -> (r: &[u8])
        ensures r@ == self.data@,
    {
        self.data.as_slice()
    }
}

/// `true` for an image XObject dictionary: `/Type /XObject /Subtype /Image`.
pub fn is_image_xobject(dict: &CosDictionary) -> (r: bool)
    ensures
        r == (dict_lookup(dict@, lit("Subtype")) == Some(CosValue::Name(lit("Image")))
            && dict_lookup(dict@, lit("Type")) == Some(CosValue::Name(lit("XObject")))),
{
    let subtype = match dict.get(&CosName::subtype()) {
        Some(CosObject::Name(n)) => eq_str(n.as_bytes(), "Image"),
        _ => false,
    };
    let xtype = match dict.get(&CosName::type_key()) {
        Some(CosObject::Name(n)) => eq_str(n.as_bytes(), "XObject"),
        _ => false,
    };
    subtype && xtype
}

/// The colour-space name of a `/ColorSpace` value (see `color_space_name`).
pub fn parse_color_space_name(obj: Option<&CosObject>) -> (r: Option<String>)
    ensures opt_text(r) == color_space_name(opt_ref_view(obj)),
{
    match obj {
        Some(CosObject::Name(name)) => Some(from_utf8_lossy(name.as_bytes())),
        Some(CosObject::Array(values)) => {
            proof { crate::cos::lemma_view_objs(values@); }
            if values.len() > 0 {
                match &values[0] {
                    CosObject::Name(n) => Some(from_utf8_lossy(n.as_bytes())),
                    _ => None,
                }
            } else {
                None
            }
        }
        _ => None,
    }
}

/// The filter names of a `/Filter` value (see `filter_name_list`).
pub fn parse_filter_names(filter: Option<&CosObject>) -> (r: Vec<String>)
    ensures texts(r@) == filter_name_list(opt_ref_view(filter)),
{
    match filter {
        Some(CosObject::Name(name)) => {
            let mut v: Vec<String> = Vec::new();
            v.push(from_utf8_lossy(name.as_bytes()));
            proof { assert(texts(v@) =~= seq![utf8_lossy(name.bytes@)]); }
            v
        }
        Some(CosObject::Array(values)) => {
            let ghost a = view_objs(values@);
            proof { crate::cos::lemma_view_objs(values@); }
            let mut v: Vec<String> = Vec::new();
            let mut i: usize = 0;
            while i < values.len()
                invariant
                    i <= values@.len(),
                    a == view_objs(values@),
                    a.len() == values@.len(),
                    forall|q: int| 0 <= q < values@.len() ==> a[q] == view_obj(#[trigger] values@[q]),
                    texts(v@) == names_in(a.take(i as int)),
                decreases values.len() - i,
            {
                proof { assert(a.take(i + 1).drop_last() =~= a.take(i as int)); }
                match &values[i] {
                    CosObject::Name(n) => {
                        let ghost before = v@;
                        v.push(from_utf8_lossy(n.as_bytes()));
                        proof { assert(texts(v@) =~= texts(before) + seq![utf8_lossy(n.bytes@)]); }
                    }
                    _ => {
                        proof { assert(names_in(a.take(i + 1)) =~= names_in(a.take(i as int))); }
                    }
                }
                i += 1;
            }
            proof { assert(a.take(values@.len() as int) =~= a); }
            v
        }
        _ => {
            let v: Vec<String> = Vec::new();
            proof { assert(texts(v@) =~= Seq::<Seq<char>>::empty()); }
            v
        }
    }
}

// ---------------------------------------------------------------------------
// Inline images
// ---------------------------------------------------------------------------

/// White space between content tokens.
pub open spec fn white(b: u8) -> bool {
    b == 0x20 || b == 0x09 || b == 0x0d || b == 0x0a || b == 0x0c || b == 0x00
}

/// Position `i` is past the end or holds white space.
pub open spec fn boundary_at(c: Seq<u8>, i: int) -> bool {
    i >= c.len() || white(c[i])
}

/// The two-byte keyword `a b` stands at `i`, with white space (or the start)
/// before it and white space after it.
pub open spec fn marker_at(c: Seq<u8>, i: int, a: u8, b: u8) -> bool {
    &&& 0 <= i && i + 2 < c.len()
    &&& c[i] == a && c[i + 1] == b
    &&& i == 0 || boundary_at(c, i - 1)
    &&& boundary_at(c, i + 2)
}

/// The first position from `i` where the keyword `a b` stands.
pub open spec fn first_marker(c: Seq<u8>, i: int, a: u8, b: u8) -> Option<int>
    decreases c.len() - i,
{
    if i < 0 || i + 2 >= c.len() {
        None
    } else if marker_at(c, i, a, b) {
        Some(i)
    } else {
        first_marker(c, i + 1, a, b)
    }
}

pub proof fn lemma_first_marker(c: Seq<u8>, i: int, a: u8, b: u8)
    requires 0 <= i,
    ensures
        match first_marker(c, i, a, b) {
            Some(k) => i <= k && marker_at(c, k, a, b) && forall|q: int| i <= q < k ==> !marker_at(c, q, a, b),
            None => forall|q: int| i <= q ==> !marker_at(c, q, a, b),
        },
    decreases c.len() - i,
{
    if i + 2 >= c.len() {
    } else if !marker_at(c, i, a, b) {
        lemma_first_marker(c, i + 1, a, b);
    }
}

/// Where an inline image's data starts after `ID` at `i`: past one white
/// space byte, or past a CR LF pair.
pub open spec fn data_start_after(c: Seq<u8>, i: int) -> int {
    let d = i + 2;
    if d < c.len() && c[d] == 0x0d && d + 1 < c.len() && c[d + 1] == 0x0a {
        d + 2
    } else if d < c.len() && white(c[d]) {
        d + 1
    } else {
        d
    }
}

/// The first position at or after `j` that is not white space.
pub open spec fn skip_white_from(c: Seq<u8>, j: int) -> int
    decreases c.len() - j,
{
    if 0 <= j < c.len() && white(c[j]) {
        skip_white_from(c, j + 1)
    } else {
        j
    }
}

/// `true` for the white-space bytes of content streams.
pub fn is_white(b: u8) -> (r: bool)
    ensures r == white(b),
{
    b == 0x20 || b == 0x09 || b == 0x0d || b == 0x0a || b == 0x0c || b == 0x00
}

/// `true` when `i` is past the end of `content` or holds white space.
pub fn is_boundary(content: &[u8], i: usize) -> (r: bool)
    ensures r == boundary_at(content@, i as int),
{
    if i >= content.len() {
        return true;
    }
    is_white(content[i])
}

pub(crate) fn marker_at_exec(content: &[u8], i: usize, a: u8, b: u8) -> (r: bool)
    requires i < content@.len(), content@.len() - i > 2,
    ensures r == marker_at(content@, i as int, a, b),
{
    content[i] == a && content[i + 1] == b && (i == 0 || is_boundary(content, i - 1)) && is_boundary(content, i + 2)
}

/// The `ID` keyword from `start`: its position and where the data after it
/// starts.
pub fn find_id_marker(content: &[u8], start: usize) -> (r: Option<(usize, usize)>)
    ensures
        r == (match first_marker(content@, start as int, 0x49, 0x44) {
            Some(i) => Some((i as usize, data_start_after(content@, i) as usize)),
            None => None,
        }),
{
    let mut i = start;
    while i < content.len() && content.len() - i > 2
        invariant
            start <= i,
            first_marker(content@, start as int, 0x49, 0x44) == first_marker(content@, i as int, 0x49, 0x44),
        decreases content.len() - i,
    {
        if marker_at_exec(content, i, 0x49, 0x44) {
            let mut data_start = i + 2;
            if data_start < content.len() {
                if content[data_start] == 0x0d && data_start + 1 < content.len() && content[data_start + 1] == 0x0a {
                    data_start += 2;
                } else if is_white(content[data_start]) {
                    data_start += 1;
                }
            }
            return Some((i, data_start));
        }
        i += 1;
    }
    None
}

/// The position just before the `EI` keyword found from `start`.
pub fn find_ei_marker(content: &[u8], start: usize) -> (r: Option<usize>)
    ensures
        r == (match first_marker(content@, start as int, 0x45, 0x49) {
            Some(i) => Some((if i == 0 { 0 } else { i - 1 }) as usize),
            None => None,
        }),
{
    let mut i = start;
    while i < content.len() && content.len() - i > 2
        invariant
            start <= i,
            first_marker(content@, start as int, 0x45, 0x49) == first_marker(content@, i as int, 0x45, 0x49),
        decreases content.len() - i,
    {
        if marker_at_exec(content, i, 0x45, 0x49) {
            return Some(if i == 0 { 0 } else { i - 1 });
        }
        i += 1;
    }
    None
}

/// The full name an inline-image dictionary key abbreviates.
pub open spec fn norm_key(k: Seq<u8>) -> Seq<u8> {
    if k == lit("W") {
        lit("Width")
    } else if k == lit("H") {
        lit("Height")
    } else if k == lit("BPC") {
        lit("BitsPerComponent")
    } else if k == lit("CS") {
        lit("ColorSpace")
    } else if k == lit("F") {
        lit("Filter")
    } else {
        k
    }
}

/// The full colour-space name an inline-image name abbreviates.
pub open spec fn norm_name(n: Seq<u8>) -> Seq<u8> {
    if n == lit("G") {
        lit("DeviceGray")
    } else if n == lit("RGB") {
        lit("DeviceRGB")
    } else if n == lit("CMYK") {
        lit("DeviceCMYK")
    } else {
        n
    }
}

/// An inline-image value with its abbreviated names expanded (inside arrays too).
pub open spec fn norm_value(v: CosValue) -> CosValue
    decreases v, 1int,
{
    match v {
        CosValue::Name(n) => CosValue::Name(norm_name(n)),
        CosValue::Array(a) => CosValue::Array(norm_values(a)),
        _ => v,
    }
}

pub open spec fn norm_values(a: Seq<CosValue>) -> Seq<CosValue>
    decreases a, 0int,
{
    if a.len() == 0 {
        Seq::empty()
    } else {
        norm_values(a.drop_last()).push(norm_value(a.last()))
    }
}

/// An inline-image dictionary with keys and values expanded, entry by entry.
pub open spec fn norm_dict(s: Seq<(Seq<u8>, CosValue)>) -> Seq<(Seq<u8>, CosValue)>
    decreases s.len(),
{
    if s.len() == 0 {
        Seq::empty()
    } else {
        dict_insert(norm_dict(s.drop_last()), norm_key(s.last().0), norm_value(s.last().1))
    }
}

fn expand_name(n: &CosName) -> (r: CosName)
    ensures r.bytes@ == norm_name(n.bytes@),
{
    let b = n.as_bytes();
    if eq_str(b, "G") {
        CosName::named("DeviceGray")
    } else if eq_str(b, "RGB") {
        CosName::named("DeviceRGB")
    } else if eq_str(b, "CMYK") {
        CosName::named("DeviceCMYK")
    } else {
        n.copy()
    }
}

fn expand_key(k: &CosName) -> (r: CosName)
    ensures r.bytes@ == norm_key(k.bytes@),
{
    let b = k.as_bytes();
    if eq_str(b, "W") {
        CosName::named("Width")
    } else if eq_str(b, "H") {
        CosName::named("Height")
    } else if eq_str(b, "BPC") {
        CosName::named("BitsPerComponent")
    } else if eq_str(b, "CS") {
        CosName::named("ColorSpace")
    } else if eq_str(b, "F") {
        CosName::named("Filter")
    } else {
        k.copy()
    }
}

/// An inline-image value with its abbreviated colour-space names expanded.
pub fn normalize_inline_value(v: &CosObject) -> (r: CosObject)
    ensures r@ == norm_value(v@),
    decreases v,
{
    match v {
        CosObject::Name(n) => CosObject::Name(expand_name(n)),
        CosObject::Array(items) => {
            let ghost a = view_objs(items@);
            proof { crate::cos::lemma_view_objs(items@); }
            let mut out: Vec<CosObject> = Vec::new();
            let mut i: usize = 0;
            while i < items.len()
                invariant
                    *v == CosObject::Array(*items),
                    i <= items@.len(),
                    a == view_objs(items@),
                    a.len() == items@.len(),
                    forall|q: int| 0 <= q < items@.len() ==> a[q] == view_obj(#[trigger] items@[q]),
                    view_objs(out@) == norm_values(a.take(i as int)),
                decreases items.len() - i,
            {
                proof {
                    broadcast use vstd::std_specs::vec::axiom_vec_index_decreases;
                    broadcast use vstd::std_specs::vec::axiom_vec_decreases_to_view;
                    assert(decreases_to!(*v => v->Array_0));
                    assert(decreases_to!(*items => items@));
                    assert(decreases_to!(items@ => items@[i as int]));
                    assert(decreases_to!(*v => items@[i as int]));
                }
                let x = normalize_inline_value(&items[i]);
                let ghost before = out@;
                out.push(x);
                proof {
                    assert(out@.drop_last() =~= before);
                    assert(a.take(i + 1).drop_last() =~= a.take(i as int));
                    assert(a.take(i + 1).last() == a[i as int]);
                }
                i += 1;
            }
            proof { assert(a.take(items@.len() as int) =~= a); }
            CosObject::Array(out)
        }
        _ => v.deep_clone(),
    }
}

/// An inline-image dictionary with its abbreviated keys and values expanded.
pub fn normalize_inline_dict(input: &CosDictionary) -> (r: CosDictionary)
    ensures r@ == norm_dict(input@),
{
    let ghost s = input@;
    proof { crate::cos::lemma_view_entries(input.entries@); }
    let mut out = CosDictionary::new();
    let mut i: usize = 0;
    while i < input.entries.len()
        invariant
            i <= input.entries@.len(),
            s == input@,
            s.len() == input.entries@.len(),
            forall|q: int| 0 <= q < input.entries@.len() ==> s[q] == (#[trigger] input.entries@[q].0.bytes@, view_obj(input.entries@[q].1)),
            out@ == norm_dict(s.take(i as int)),
        decreases input.entries.len() - i,
    {
        let k = expand_key(&input.entries[i].0);
        let v = normalize_inline_value(&input.entries[i].1);
        out.insert(k, v);
        proof {
            assert(s.take(i + 1).drop_last() =~= s.take(i as int));
            assert(s.take(i + 1).last() == s[i as int]);
        }
        i += 1;
    }
    proof { assert(s.take(s.len() as int) =~= s); }
    out
}

/// The text an inline-image dictionary is parsed from: its bytes between
/// `<< ` and ` >>`.
pub open spec fn wrapped(d: Seq<u8>) -> Seq<u8> {
    lit("<< ") + d + lit(" >>")
}

/// The expanded dictionary of an inline image whose dictionary text is `d`;
/// `None` when that text does not parse as a dictionary.
pub open spec fn inline_dict(d: Seq<u8>) -> Option<Seq<(Seq<u8>, CosValue)>> {
    match parse_value(wrapped(d), 0) {
        ParseOut::Obj(CosValue::Dict(e), _) => Some(norm_dict(e)),
        _ => None,
    }
}

/// `img` is inline image number `index` with dictionary `d` and data `data`.
pub open spec fn inline_image_ok(img: PdImage, d: Seq<(Seq<u8>, CosValue)>, data: Seq<u8>, index: int) -> bool {
    &&& img.object_id is None
    &&& img.resource_name@ == "inline_"@ + decimal_text(index)
    &&& params_from(img, d)
    &&& img.smask is None
    &&& img.data@ == data
}

/// The image parameters read from an (expanded) image dictionary.
pub(crate) fn read_params(dict: &CosDictionary) -> (r: (u32, u32, u8, Option<CosObject>, Option<String>, Option<CosObject>, Vec<String>))
    ensures
        r.0 == size_u32(int_or(dict@, lit("Width"), 0)),
        r.1 == size_u32(int_or(dict@, lit("Height"), 0)),
        r.2 == bpc_u8(int_or(dict@, lit("BitsPerComponent"), 8)),
        opt_view(r.3) == dict_lookup(dict@, lit("ColorSpace")),
        opt_text(r.4) == color_space_name(dict_lookup(dict@, lit("ColorSpace"))),
        opt_view(r.5) == dict_lookup(dict@, lit("Filter")),
        texts(r.6@) == filter_name_list(dict_lookup(dict@, lit("Filter"))),
{
    let w: i64 = match dict.get(&CosName::named("Width")) {
        Some(CosObject::Integer(n)) => *n,
        _ => 0,
    };
    let h: i64 = match dict.get(&CosName::named("Height")) {
        Some(CosObject::Integer(n)) => *n,
        _ => 0,
    };
    let b: i64 = match dict.get(&CosName::named("BitsPerComponent")) {
        Some(CosObject::Integer(n)) => *n,
        _ => 8,
    };
    let width = (if w < 0 { 0 } else { w }) as u32;
    let height = (if h < 0 { 0 } else { h }) as u32;
    let bpc = (if b < 0 { 0 } else if b > 255 { 255 } else { b }) as u8;
    let cs_obj: Option<CosObject> = match dict.get(&CosName::named("ColorSpace")) {
        Some(o) => Some(o.deep_clone()),
        None => None,
    };
    let cs = match &cs_obj {
        Some(o) => parse_color_space_name(Some(o)),
        None => parse_color_space_name(None),
    };
    let filter: Option<CosObject> = match dict.get(&CosName::filter()) {
        Some(o) => Some(o.deep_clone()),
        None => None,
    };
    let names = match &filter {
        Some(o) => parse_filter_names(Some(o)),
        None => parse_filter_names(None),
    };
    (width, height, bpc, cs_obj, cs, filter, names)
}

fn wrap_dict_text(dict_slice: &[u8]) -> (wrapped_bytes: Vec<u8>)
    ensures wrapped_bytes@ == wrapped(dict_slice@),
{
    let mut wrapped_bytes: Vec<u8> = Vec::new();
    wrapped_bytes.push(0x3c);
    wrapped_bytes.push(0x3c);
    wrapped_bytes.push(0x20);
    let mut i: usize = 0;
    while i < dict_slice.len()
        invariant i <= dict_slice@.len(), wrapped_bytes@ == seq![0x3cu8, 0x3c, 0x20] + dict_slice@.take(i as int),
        decreases dict_slice.len() - i,
    {
        wrapped_bytes.push(dict_slice[i]);
        proof { assert(wrapped_bytes@ =~= seq![0x3cu8, 0x3c, 0x20] + dict_slice@.take(i + 1)); }
        i += 1;
    }
    wrapped_bytes.push(0x20);
    wrapped_bytes.push(0x3e);
    wrapped_bytes.push(0x3e);
    proof {
        reveal_strlit("<< ");
        reveal_strlit(" >>");
        vstd::string::is_ascii_spec_bytes("<< ");
        vstd::string::is_ascii_spec_bytes(" >>");
        assert(dict_slice@.take(dict_slice@.len() as int) =~= dict_slice@);
        assert(lit("<< ") =~= seq![0x3cu8, 0x3c, 0x20]);
        assert(lit(" >>") =~= seq![0x20u8, 0x3e, 0x3e]);
        assert(wrapped_bytes@ =~= wrapped(dict_slice@));
    }
    wrapped_bytes
}

/// The inline image numbered `index` with dictionary text `dict_slice` and
/// data `data`; `None` when the dictionary text does not parse.
pub fn build_inline_image(dict_slice: &[u8], data: Vec<u8>, index: usize) -> (r: Option<PdImage>)
    ensures
        match inline_dict(dict_slice@) {
            Some(d) => r is Some && inline_image_ok(r->Some_0, d, data@, index as int),
            None => r is None,
        },
{
    let wrapped_bytes = wrap_dict_text(dict_slice);
    let mut parser = Parser::new(wrapped_bytes.as_slice());
    let obj = match parser.parse_object() {
        Ok(Some(o)) => o,
        _ => return None,
    };
    let dict = match obj {
        CosObject::Dictionary(d) => normalize_inline_dict(&d),
        _ => return None,
    };
    let (width, height, bits_per_component, color_space_obj, color_space, filter, filter_names) = read_params(&dict);
    let mut name = String::new();
    push_str(&mut name, "inline_");
    push_digits(&mut name, index as u64);
    proof { assert(name@ =~= "inline_"@ + decimal_text(index as int)); }
    Some(PdImage {
        object_id: None,
        resource_name: name,
        width,
        height,
        bits_per_component,
        color_space,
        color_space_obj,
        smask: None,
        filter_names,
        data,
        filter,
    })
}

pub proof fn lemma_skip_white(c: Seq<u8>, j: int)
    requires 0 <= j,
    ensures
        skip_white_from(c, j) >= j,
        skip_white_from(c, j) < c.len() ==> 0 <= skip_white_from(c, j) && !white(c[skip_white_from(c, j)]),
    decreases c.len() - j,
{
    if 0 <= j < c.len() && white(c[j]) {
        lemma_skip_white(c, j + 1);
    }
}

/// The inline images found scanning `c` from `i`: for each, its dictionary
/// text and its data. Scanning stops at the end, or when a `BI` is not
/// followed by `ID` and `EI`. `None` when an image's data would end before
/// it starts (`ID` directly followed by `EI`).
pub open spec fn inline_scan(c: Seq<u8>, i: int) -> Option<Seq<(Seq<u8>, Seq<u8>)>>
    decreases c.len() - i,
{
    if i < 0 || i + 2 >= c.len() {
        Some(Seq::empty())
    } else if !marker_at(c, i, 0x42, 0x49) {
        inline_scan(c, i + 1)
    } else {
        let j = skip_white_from(c, i + 2);
        if j >= c.len() {
            Some(Seq::empty())
        } else {
            match first_marker(c, j, 0x49, 0x44) {
                None => Some(Seq::empty()),
                Some(de) => {
                    let ds = data_start_after(c, de);
                    match first_marker(c, ds, 0x45, 0x49) {
                        None => Some(Seq::empty()),
                        Some(ei) => {
                            let dend = if ei == 0 { 0 } else { ei - 1 };
                            if dend < ds {
                                None
                            } else {
                                proof {
                                    lemma_skip_white(c, i + 2);
                                    lemma_first_marker(c, j, 0x49, 0x44);
                                    lemma_first_marker(c, ds, 0x45, 0x49);
                                }
                                match inline_scan(c, dend + 2) {
                                    Some(rest) => Some(seq![(c.subrange(j, de), c.subrange(ds, dend))] + rest),
                                    None => None,
                                }
                            }
                        }
                    }
                }
            }
        }
    }
}

/// The images built from the found dictionary texts and data, in order,
/// leaving out those whose dictionary does not parse.
pub open spec fn inline_built(found: Seq<(Seq<u8>, Seq<u8>)>) -> Seq<(Seq<(Seq<u8>, CosValue)>, Seq<u8>)>
    decreases found.len(),
{
    if found.len() == 0 {
        Seq::empty()
    } else {
        inline_built(found.drop_last()) + match inline_dict(found.last().0) {
            Some(d) => seq![(d, found.last().1)],
            None => Seq::empty(),
        }
    }
}

/// The inline images of content bytes, numbered from 1 in order.
#[verifier::spinoff_prover]
#[verifier::rlimit(40)]
pub fn extract_inline_images(content: &[u8]) -> (r: Vec<PdImage>)
    requires inline_scan(content@, 0) is Some,
    ensures
        ({
            let b = inline_built(inline_scan(content@, 0)->Some_0);
            &&& r@.len() == b.len()
            &&& forall|k: int| 0 <= k < b.len() ==> inline_image_ok(#[trigger] r@[k], b[k].0, b[k].1, k + 1)
        }),
{
    let ghost c = content@;
    let ghost all = inline_scan(c, 0)->Some_0;
    let ghost mut found: Seq<(Seq<u8>, Seq<u8>)> = Seq::empty();
    let mut out: Vec<PdImage> = Vec::new();
    let mut i: usize = 0;
    let mut index: usize = 1;
    proof { assert(all =~= found + inline_scan(c, 0)->Some_0); }
    while i < content.len() && content.len() - i > 2
        invariant
            c == content@,
            i <= c.len(),
            inline_scan(c, i as int) is Some,
            all == found + inline_scan(c, i as int)->Some_0,
            out@.len() == inline_built(found).len(),
            index == out@.len() + 1,
            out@.len() <= i,
            forall|k: int| 0 <= k < out@.len() ==> inline_image_ok(#[trigger] out@[k], inline_built(found)[k].0, inline_built(found)[k].1, k + 1),
        ensures
            all == found,
            out@.len() == inline_built(found).len(),
            forall|k: int| 0 <= k < out@.len() ==> inline_image_ok(#[trigger] out@[k], inline_built(found)[k].0, inline_built(found)[k].1, k + 1),
        decreases content.len() - i,
    {
        if !marker_at_exec(content, i, 0x42, 0x49) {
            i += 1;
        } else {
            let mut j = i + 2;
            while j < content.len() && is_white(content[j])
                invariant i + 2 <= j <= c.len(), c == content@, skip_white_from(c, i + 2) == skip_white_from(c, j as int),
                decreases content.len() - j,
            {
                j += 1;
            }
            if j >= content.len() {
                proof { assert(inline_scan(c, i as int) == Some(Seq::<(Seq<u8>, Seq<u8>)>::empty())); assert(all =~= found); }
                break;
            }
            let (dict_end, data_start) = match find_id_marker(content, j) {
                Some(p) => p,
                None => {
                    proof { assert(all =~= found); }
                    break;
                }
            };
            let data_end = match find_ei_marker(content, data_start) {
                Some(e) => e,
                None => {
                    proof { assert(all =~= found); }
                    break;
                }
            };
            proof {
                lemma_first_marker(c, j as int, 0x49, 0x44);
                lemma_first_marker(c, data_start as int, 0x45, 0x49);
            }
            let dict_slice = crate::bytes::copy_range(content, j, dict_end);
            let data = crate::bytes::copy_range(content, data_start, data_end);
            let ghost item = (c.subrange(j as int, dict_end as int), c.subrange(data_start as int, data_end as int));
            let ghost before = found;
            proof {
                let rest = inline_scan(c, data_end + 2)->Some_0;
                assert(inline_scan(c, i as int) == Some(seq![item] + rest));
                found = found.push(item);
                assert(all =~= found + rest);
                assert(found.drop_last() =~= before);
            }
            match build_inline_image(dict_slice.as_slice(), data, index) {
                Some(img) => {
                    out.push(img);
                    index += 1;
                }
                None => {}
            }
            i = data_end + 2;
        }
    }
    proof { assert(all == found); }
    out
}

/// The dictionary of an ICC profile: a stream's dictionary or a dictionary.
pub open spec fn profile_dict(v: CosValue) -> Option<Seq<(Seq<u8>, CosValue)>> {
    match v {
        CosValue::Stream(d, _) => Some(d),
        CosValue::Dict(d) => Some(d),
        _ => None,
    }
}

/// The device space an ICC profile stands for: its `/Alternate` when that
/// is a device space, else the one its `/N` component count names.
pub open spec fn profile_space(pd: Seq<(Seq<u8>, CosValue)>) -> Option<Seq<char>> {
    let alt = dict_lookup(pd, lit("Alternate"));
    if alt == Some(CosValue::Name(lit("DeviceGray"))) {
        Some("DeviceGray"@)
    } else if alt == Some(CosValue::Name(lit("DeviceRGB"))) {
        Some("DeviceRGB"@)
    } else if alt == Some(CosValue::Name(lit("DeviceCMYK"))) {
        Some("DeviceCMYK"@)
    } else {
        match dict_lookup(pd, lit("N")) {
            Some(CosValue::Integer(n)) => if n == 1 {
                Some("DeviceGray"@)
            } else if n == 3 {
                Some("DeviceRGB"@)
            } else if n == 4 {
                Some("DeviceCMYK"@)
            } else {
                None
            },
            _ => None,
        }
    }
}

/// The colour space pixels are read in: the image's own, except for
/// `ICCBased`, where it is the device space the profile stands for.
pub open spec fn effective_cs(img: PdImage) -> Option<Seq<char>> {
    let cs = opt_text(img.color_space);
    if cs != Some("ICCBased"@) {
        cs
    } else {
        match opt_view(img.color_space_obj) {
            Some(CosValue::Array(arr)) => if arr.len() == 0 {
                None
            } else {
                match arr[0] {
                    CosValue::Name(tag) => match utf8_text(tag) {
                        None => None,
                        Some(t) => if t != "ICCBased"@ {
                            cs
                        } else if arr.len() < 2 {
                            None
                        } else {
                            match profile_dict(arr[1]) {
                                None => None,
                                Some(pd) => profile_space(pd),
                            }
                        },
                    },
                    _ => None,
                }
            },
            _ => None,
        }
    }
}

fn profile_space_exec(pd: &CosDictionary) -> (r: Option<String>)
    ensures opt_text(r) == profile_space(pd@),
{
    match pd.get(&CosName::named("Alternate")) {
        Some(CosObject::Name(a)) => {
            let b = a.as_bytes();
            if eq_str(b, "DeviceGray") {
                return Some(owned_text("DeviceGray"));
            } else if eq_str(b, "DeviceRGB") {
                return Some(owned_text("DeviceRGB"));
            } else if eq_str(b, "DeviceCMYK") {
                return Some(owned_text("DeviceCMYK"));
            }
        }
        _ => {}
    }
    match pd.get(&CosName::named("N")) {
        Some(CosObject::Integer(n)) => if *n == 1 {
            Some(owned_text("DeviceGray"))
        } else if *n == 3 {
            Some(owned_text("DeviceRGB"))
        } else if *n == 4 {
            Some(owned_text("DeviceCMYK"))
        } else {
            None
        },
        _ => None,
    }
}

impl PdImage {
    /// The colour space pixels are read in (see `effective_cs`).
    pub fn effective_color_space(&self) -> (r: Option<String>)
        ensures opt_text(r) == effective_cs(*self),
    {
        let own = match &self.color_space {
            Some(s) => Some(owned_text(s.as_str())),
            None => None,
        };
        let is_icc = match &self.color_space {
            Some(s) => str_eq(s.as_str(), "ICCBased"),
            None => false,
        };
        if !is_icc {
            return own;
        }
        let arr = match &self.color_space_obj {
            Some(CosObject::Array(a)) => a,
            _ => return None,
        };
        proof { crate::cos::lemma_view_objs(arr@); }
        if arr.len() == 0 {
            return None;
        }
        let tag = match &arr[0] {
            CosObject::Name(n) => n,
            _ => return None,
        };
        let tag_text = match from_utf8_strict(tag.as_bytes()) {
            Some(t) => t,
            None => return None,
        };
        if !str_eq(tag_text.as_str(), "ICCBased") {
            return own;
        }
        if arr.len() < 2 {
            return None;
        }
        match &arr[1] {
            CosObject::Stream(st) => profile_space_exec(&st.dictionary),
            CosObject::Dictionary(d) => profile_space_exec(d),
            _ => None,
        }
    }
}

} // verus!

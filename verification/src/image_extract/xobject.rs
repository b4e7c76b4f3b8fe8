//! Image XObjects drawn by a page: the names its content invokes with `Do`,
//! and the images those names stand for in its resources.

use vstd::prelude::*;
use crate::bytes::{clone_bytes, eq_str, lit};
use crate::cos::{CosDictionary, CosName, CosObject, CosStream, CosValue, ObjectId, dict_lookup, view_obj, view_objs};
use crate::document::{Document, ObjectStore, PdfError, store_find};
use crate::io::{Decoded, decode_spec, decode_stream};
use crate::pdmodel::page_tree::{document_pages, ids_of};
use crate::text::{from_utf8_lossy, utf8_lossy};
use crate::parser::lexer::{LexOut, Token, TokenV, lex_at, lex_token};
use crate::parser::parser::{ParseOut, parse_value, parse_value_at};
use super::{
    ImageMask, PdImage, extract_inline_images, find_id_marker, inline_built, inline_image_ok, inline_scan, is_white,
    lemma_skip_white, marker_at_exec, skip_white_from, bpc_u8, color_space_name, filter_name_list, find_ei_marker, first_marker, int_or,
    lemma_first_marker, marker_at, opt_ref_view, opt_text, opt_view, parse_color_space_name, read_params, size_u32,
    texts,
};

verus! {

/// One step of reading content from `p`.
pub enum ScanStep {
    /// The content ends.
    End,
    /// The content cannot be read on.
    Fail,
    /// An operand, and where reading goes on.
    Operand(CosValue, int),
    /// An operator keyword, and where reading goes on.
    Operator(Seq<u8>, int),
    /// Reading goes on at the position, with no operands pending: past a
    /// byte that starts no token, past a delimiter that starts no object,
    /// or past an inline image's data.
    Resume(int),
}

/// The object parsed at `p` (kept folded where content is scanned).
#[verifier::opaque]
pub open spec fn value_at(c: Seq<u8>, p: int) -> ParseOut {
    parse_value(c, p)
}

/// The token lexed at `q` (kept folded where content is scanned).
#[verifier::opaque]
pub open spec fn token_at(c: Seq<u8>, q: int) -> LexOut {
    lex_at(c, q)
}

/// What reading content `c` at `p` meets first. After `ID` the data of an
/// inline image is skipped up to its `EI`.
pub open spec fn scan_step(c: Seq<u8>, p: int) -> ScanStep {
    match value_at(c, p) {
        ParseOut::Bad(o) => if p <= o < c.len() { ScanStep::Resume(o + 1) } else { ScanStep::Fail },
        ParseOut::Obj(v, e) => ScanStep::Operand(v, e),
        ParseOut::NoObj(q) => after_token(c, p, q),
    }
}

/// What reading on from a token at `q` gives, reading having started at `p`.
pub open spec fn after_token(c: Seq<u8>, p: int, q: int) -> ScanStep {
    match token_at(c, q) {
        LexOut::Eof(_) => ScanStep::End,
        LexOut::Bad(o) => if p <= o < c.len() { ScanStep::Resume(o + 1) } else { ScanStep::Fail },
        LexOut::Tok(TokenV::Keyword(k), e) => if k == lit("ID") {
            match first_marker(c, e, 0x45, 0x49) {
                Some(m) => ScanStep::Resume(m + 2),
                None => ScanStep::End,
            }
        } else {
            ScanStep::Operator(k, e)
        },
        LexOut::Tok(_, e) => ScanStep::Resume(e),
    }
}

/// The names a content stream draws with `Do`, reading operands and
/// operators from `p`; `ops` are the operands read since the last operator.
/// A `Do` counts when its only operand is a name. `None` when the content
/// stops being readable.
pub open spec fn do_scan(c: Seq<u8>, p: int, ops: Seq<CosValue>) -> Option<Seq<Seq<u8>>>
    decreases c.len() - p,
{
    if p < 0 || p > c.len() {
        None
    } else {
        match scan_step(c, p) {
            ScanStep::End => Some(Seq::empty()),
            ScanStep::Fail => None,
            ScanStep::Operand(v, e) => if p < e <= c.len() { do_scan(c, e, ops.push(v)) } else { None },
            ScanStep::Resume(e) => if p < e <= c.len() { do_scan(c, e, Seq::empty()) } else { None },
            ScanStep::Operator(k, e) => if p < e <= c.len() {
                let rest = do_scan(c, e, Seq::empty());
                if k == lit("Do") && ops.len() == 1 && ops[0] is Name {
                    match rest {
                        Some(r) => Some(seq![ops[0]->Name_0] + r),
                        None => None,
                    }
                } else {
                    rest
                }
            } else {
                None
            },
        }
    }
}

/// One step of reading content, as `scan_step` describes it.
pub enum ContentStep {
    End,
    Fail,
    Operand(CosObject, usize),
    Operator(Vec<u8>, usize),
    Resume(usize),
}

impl ContentStep {
    pub open spec fn view(&self) -> ScanStep {
        match self {
            ContentStep::End => ScanStep::End,
            ContentStep::Fail => ScanStep::Fail,
            ContentStep::Operand(v, e) => ScanStep::Operand(v@, *e as int),
            ContentStep::Operator(k, e) => ScanStep::Operator(k@, *e as int),
            ContentStep::Resume(e) => ScanStep::Resume(*e as int),
        }
    }
}

/// Reads on from the token at `q` (see `after_token`).
fn token_step(content: &[u8], p: usize, q: usize) -> (r: ContentStep)
    requires q <= content@.len(),
    ensures r@ == after_token(content@, p as int, q as int),
{
    let tok = lex_token(content, q);
    proof { assert(token_at(content@, q as int) == lex_at(content@, q as int)) by { reveal(token_at); } }
    match tok {
        Ok((None, _)) => {
            proof { assert(lex_at(content@, q as int) is Eof); }
            ContentStep::End
        }
        Err(x) => if p <= x.offset && x.offset < content.len() { ContentStep::Resume(x.offset + 1) } else { ContentStep::Fail },
        Ok((Some(Token::Keyword(k)), e)) => {
            if eq_str(k.as_slice(), "ID") {
                match find_ei_marker(content, e) {
                    Some(d) => {
                        proof {
                            lemma_first_marker(content@, e as int, 0x45, 0x49);
                            let m = first_marker(content@, e as int, 0x45, 0x49)->Some_0;
                            assert(e <= m);
                            assert(marker_at(content@, m, 0x45, 0x49));
                            assert(q < e);
                            assert(content@.len() == content.len());
                            assert(m + 2 < content.len());
                            assert(d as int == m - 1);
                        }
                        ContentStep::Resume(d + 3)
                    }
                    None => ContentStep::End,
                }
            } else {
                ContentStep::Operator(k, e)
            }
        }
        Ok((Some(_), e)) => ContentStep::Resume(e),
    }
}

/// Reads one step of `content` at `p` (see `scan_step`).
pub fn next_content_step(content: &[u8], p: usize) -> (r: ContentStep)
    requires p <= content@.len(),
    ensures r@ == scan_step(content@, p as int),
{
    let first_try = parse_value_at(content, p);
    proof { assert(value_at(content@, p as int) == parse_value(content@, p as int)) by { reveal(value_at); } }
    match first_try {
        Err(x) => if p <= x.offset && x.offset < content.len() { ContentStep::Resume(x.offset + 1) } else { ContentStep::Fail },
        Ok((Some(obj), e)) => ContentStep::Operand(obj, e),
        Ok((None, q)) => token_step(content, p, q),
    }
}

/// `r` with `pre` in front.
pub open spec fn prefixed(pre: Seq<Seq<u8>>, r: Option<Seq<Seq<u8>>>) -> Option<Seq<Seq<u8>>> {
    match r {
        Some(s) => Some(pre + s),
        None => None,
    }
}

/// The bytes of each name.
pub open spec fn name_bytes(v: Seq<CosName>) -> Seq<Seq<u8>> {
    Seq::new(v.len(), |i: int| v[i].bytes@)
}

proof fn lemma_prefixed_empty(r: Option<Seq<Seq<u8>>>)
    ensures prefixed(Seq::empty(), r) == r,
{
    if let Some(s) = r {
        assert(Seq::<Seq<u8>>::empty() + s =~= s);
    }
}

/// The names drawn with `Do` in content `c`; none when it does not parse.
pub open spec fn do_names(c: Seq<u8>) -> Seq<Seq<u8>> {
    match do_scan(c, 0, Seq::empty()) {
        Some(s) => s,
        None => Seq::empty(),
    }
}

/// The names the content bytes draw with `Do` (see `do_scan`), in order.
pub fn do_operand_names(content: &[u8]) -> (r: Vec<CosName>)
    ensures name_bytes(r@) == do_names(content@),
{
    let ghost c = content@;
    let ghost mut ops: Seq<CosValue> = Seq::empty();
    let mut out: Vec<CosName> = Vec::new();
    let mut n_ops: u8 = 0;
    let mut first: Option<CosName> = None;
    let mut p: usize = 0;
    proof {
        assert(name_bytes(out@) =~= Seq::<Seq<u8>>::empty());
        lemma_prefixed_empty(do_scan(c, 0, Seq::empty()));
    }
    loop
        invariant
            c == content@,
            p <= c.len(),
            prefixed(Seq::empty(), do_scan(c, 0, Seq::empty())) == prefixed(name_bytes(out@), do_scan(c, p as int, ops)),
            n_ops == (if ops.len() >= 2 { 2 } else { ops.len() }),
            (ops.len() >= 1 && ops[0] is Name) <==> first is Some,
            first is Some ==> first->Some_0.bytes@ == ops[0]->Name_0,
        ensures
            name_bytes(out@) == do_names(c),
        decreases c.len() - p,
    {
        let ghost before = name_bytes(out@);
        let step = next_content_step(content, p);
        match step {
            ContentStep::End => {
                proof {
                    assert(name_bytes(out@) + Seq::<Seq<u8>>::empty() =~= name_bytes(out@));
                    lemma_prefixed_empty(do_scan(c, 0, Seq::empty()));
                }
                break;
            }
            ContentStep::Fail => {
                proof { assert(name_bytes(Seq::<CosName>::empty()) =~= Seq::<Seq<u8>>::empty()); }
                return Vec::new();
            }
            ContentStep::Operand(obj, e) => {
                if !(p < e && e <= content.len()) {
                    proof { assert(name_bytes(Seq::<CosName>::empty()) =~= Seq::<Seq<u8>>::empty()); }
                    return Vec::new();
                }
                if n_ops == 0 {
                    n_ops = 1;
                    first = match obj {
                        CosObject::Name(n) => Some(n),
                        _ => None,
                    };
                } else {
                    n_ops = 2;
                }
                proof { ops = ops.push(obj@); }
                p = e;
            }
            ContentStep::Resume(e) => {
                if !(p < e && e <= content.len()) {
                    proof { assert(name_bytes(Seq::<CosName>::empty()) =~= Seq::<Seq<u8>>::empty()); }
                    return Vec::new();
                }
                p = e;
                n_ops = 0;
                first = None;
                proof { ops = Seq::empty(); }
            }
            ContentStep::Operator(k, e) => {
                if !(p < e && e <= content.len()) {
                    proof { assert(name_bytes(Seq::<CosName>::empty()) =~= Seq::<Seq<u8>>::empty()); }
                    return Vec::new();
                }
                if eq_str(k.as_slice(), "Do") && n_ops == 1 && first.is_some() {
                    let n = match first {
                        Some(n) => n,
                        None => CosName::named("Do"),
                    };
                    out.push(n);
                    proof {
                        assert(name_bytes(out@) =~= before.push(ops[0]->Name_0));
                        assert forall|s: Seq<Seq<u8>>| before + (seq![ops[0]->Name_0] + s) =~= name_bytes(out@) + s by {}
                    }
                }
                p = e;
                n_ops = 0;
                first = None;
                proof { ops = Seq::empty(); }
            }
        }
    }
    out
}


// ---------------------------------------------------------------------------
// Resolving an image's dictionary entries
// ---------------------------------------------------------------------------

/// `v` with its references replaced by what the store holds, inside arrays
/// too, following at most `fuel` references along any path (a reference
/// past that, or to nothing, stays as it is).
pub open spec fn resolved(v: CosValue, store: Seq<(ObjectId, CosValue)>, fuel: nat) -> CosValue
    decreases fuel, v, 1int,
{
    match v {
        CosValue::Ref(n, g) => if fuel == 0 {
            v
        } else {
            match store_find(store, ObjectId { object_number: n, generation: g }) {
                Some(o) => resolved(o, store, (fuel - 1) as nat),
                None => v,
            }
        },
        CosValue::Array(a) => CosValue::Array(resolved_all(a, store, fuel)),
        _ => v,
    }
}

pub open spec fn resolved_all(a: Seq<CosValue>, store: Seq<(ObjectId, CosValue)>, fuel: nat) -> Seq<CosValue>
    decreases fuel, a, 0int,
{
    if a.len() == 0 {
        Seq::empty()
    } else {
        resolved_all(a.drop_last(), store, fuel).push(resolved(a.last(), store, fuel))
    }
}

/// A copy of `obj` resolved through `store` (see `resolved`).
pub fn resolve_object(obj: &CosObject, store: &ObjectStore, fuel: usize) -> (r: CosObject)
    ensures r@ == resolved(obj@, store@, fuel as nat),
    decreases fuel, obj,
{
    match obj {
        CosObject::Reference(id) => {
            if fuel == 0 {
                return CosObject::Reference(*id);
            }
            match store.get(id) {
                Some(o) => resolve_object(o, store, fuel - 1),
                None => CosObject::Reference(*id),
            }
        }
        CosObject::Array(items) => {
            let ghost a = view_objs(items@);
            proof { crate::cos::lemma_view_objs(items@); }
            let mut out: Vec<CosObject> = Vec::new();
            let mut i: usize = 0;
            while i < items.len()
                invariant
                    *obj == CosObject::Array(*items),
                    i <= items@.len(),
                    a == view_objs(items@),
                    a.len() == items@.len(),
                    forall|q: int| 0 <= q < items@.len() ==> a[q] == view_obj(#[trigger] items@[q]),
                    view_objs(out@) == resolved_all(a.take(i as int), store@, fuel as nat),
                decreases items.len() - i,
            {
                proof {
                    broadcast use vstd::std_specs::vec::axiom_vec_index_decreases;
                    broadcast use vstd::std_specs::vec::axiom_vec_decreases_to_view;
                    assert(decreases_to!(*obj => obj->Array_0));
                    assert(decreases_to!(*items => items@));
                    assert(decreases_to!(items@ => items@[i as int]));
                    assert(decreases_to!(*obj => items@[i as int]));
                }
                let x = resolve_object(&items[i], store, fuel);
                let ghost before = out@;
                out.push(x);
                proof {
                    assert(out@.drop_last() =~= before);
                    assert(a.take(i + 1).drop_last() =~= a.take(i as int));
                    assert(a.take(i + 1).last() == a[i as int]);
                }
                i += 1;
            }
            proof { assert(a.take(items@.len() as int) =~= a); }
            CosObject::Array(out)
        }
        _ => obj.deep_clone(),
    }
}

/// The dictionary a value is or references.
pub open spec fn dict_of(v: Option<CosValue>, store: Seq<(ObjectId, CosValue)>) -> Option<Seq<(Seq<u8>, CosValue)>> {
    match v {
        Some(CosValue::Dict(d)) => Some(d),
        Some(CosValue::Ref(n, g)) => match store_find(store, ObjectId { object_number: n, generation: g }) {
            Some(CosValue::Dict(d)) => Some(d),
            _ => None,
        },
        _ => None,
    }
}

/// The dictionary `obj` is or references (see `dict_of`).
pub fn resolve_dict<'a>(obj: Option<&'a CosObject>, store: &'a ObjectStore) -> (r: Option<&'a CosDictionary>)
    ensures
        match dict_of(opt_ref_view(obj), store@) {
            Some(d) => r is Some && r->Some_0@ == d,
            None => r is None,
        },
{
    match obj {
        Some(CosObject::Dictionary(d)) => Some(d),
        Some(CosObject::Reference(id)) => match store.get(id) {
            Some(CosObject::Dictionary(d)) => Some(d),
            _ => None,
        },
        _ => None,
    }
}

/// The stream a value is or references: its id when referenced, its
/// dictionary and its data.
pub open spec fn stream_of(v: Option<CosValue>, store: Seq<(ObjectId, CosValue)>)
    -> Option<(Option<ObjectId>, Seq<(Seq<u8>, CosValue)>, Seq<u8>)> {
    match v {
        Some(CosValue::Ref(n, g)) => match store_find(store, ObjectId { object_number: n, generation: g }) {
            Some(CosValue::Stream(d, data)) => Some((Some(ObjectId { object_number: n, generation: g }), d, data)),
            _ => None,
        },
        Some(CosValue::Stream(d, data)) => Some((None, d, data)),
        _ => None,
    }
}

/// The stream `obj` is or references (see `stream_of`).
pub fn resolve_stream<'a>(obj: Option<&'a CosObject>, store: &'a ObjectStore) -> (r: Option<(Option<ObjectId>, &'a CosStream)>)
    ensures
        match stream_of(opt_ref_view(obj), store@) {
            Some((id, d, data)) => r is Some && r->Some_0.0 == id && r->Some_0.1.dictionary@ == d && r->Some_0.1.data@ == data,
            None => r is None,
        },
{
    match obj {
        Some(CosObject::Reference(id)) => match store.get(id) {
            Some(CosObject::Stream(s)) => Some((Some(*id), s)),
            _ => None,
        },
        Some(CosObject::Stream(s)) => Some((None, s)),
        _ => None,
    }
}

/// `m` is the soft mask read from the mask stream with dictionary `d` and
/// data `data`.
pub open spec fn mask_ok(m: ImageMask, d: Seq<(Seq<u8>, CosValue)>, data: Seq<u8>) -> bool {
    &&& m.width == size_u32(int_or(d, lit("Width"), 0))
    &&& m.height == size_u32(int_or(d, lit("Height"), 0))
    &&& m.bits_per_component == bpc_u8(int_or(d, lit("BitsPerComponent"), 8))
    &&& m.data@ == data
    &&& opt_view(m.filter) == dict_lookup(d, lit("Filter"))
}

/// The soft mask of the image dictionary `d`: the stream its `/SMask`
/// is or references.
pub fn extract_smask(dict: &CosDictionary, store: &ObjectStore) -> (r: Option<ImageMask>)
    ensures
        match stream_of(dict_lookup(dict@, lit("SMask")), store@) {
            Some((_, d, data)) => r is Some && mask_ok(r->Some_0, d, data),
            None => r is None,
        },
{
    let (_, s) = match resolve_stream(dict.get(&CosName::named("SMask")), store) {
        Some(x) => x,
        None => return None,
    };
    let (width, height, bits_per_component, _, _, filter, _) = read_params(&s.dictionary);
    Some(ImageMask { width, height, bits_per_component, data: clone_bytes(s.data.as_slice()), filter })
}

/// An image found through a `Do`: where it came from, the name it was drawn
/// by, its dictionary and its data.
pub type Pick = (Option<ObjectId>, Seq<u8>, Seq<(Seq<u8>, CosValue)>, Seq<u8>);

/// `img` is the image XObject `pk` with its colour space resolved through
/// `store`.
pub open spec fn xobject_image_ok(img: PdImage, pk: Pick, store: Seq<(ObjectId, CosValue)>) -> bool {
    let d = pk.2;
    let cs = match dict_lookup(d, lit("ColorSpace")) {
        Some(v) => Some(resolved(v, store, store.len())),
        None => None,
    };
    &&& img.object_id == pk.0
    &&& img.resource_name@ == utf8_lossy(pk.1)
    &&& img.width == size_u32(int_or(d, lit("Width"), 0))
    &&& img.height == size_u32(int_or(d, lit("Height"), 0))
    &&& img.bits_per_component == bpc_u8(int_or(d, lit("BitsPerComponent"), 8))
    &&& opt_view(img.color_space_obj) == cs
    &&& opt_text(img.color_space) == color_space_name(cs)
    &&& match stream_of(dict_lookup(d, lit("SMask")), store) {
        Some((_, md, mdata)) => img.smask is Some && mask_ok(img.smask->Some_0, md, mdata),
        None => img.smask is None,
    }
    &&& opt_view(img.filter) == dict_lookup(d, lit("Filter"))
    &&& texts(img.filter_names@) == filter_name_list(dict_lookup(d, lit("Filter")))
    &&& img.data@ == pk.3
}

/// The image XObject `stream`, drawn by `name` (see `xobject_image_ok`).
pub fn image_from_xobject(object_id: Option<ObjectId>, name: &CosName, stream: &CosStream, store: &ObjectStore) -> (r: PdImage)
    ensures xobject_image_ok(r, (object_id, name.bytes@, stream.dictionary@, stream.data@), store@),
{
    let dict = &stream.dictionary;
    let (width, height, bits_per_component, _, _, filter, filter_names) = read_params(dict);
    let color_space_obj = match dict.get(&CosName::named("ColorSpace")) {
        Some(v) => Some(resolve_object(v, store, store.len())),
        None => None,
    };
    let color_space = match &color_space_obj {
        Some(o) => parse_color_space_name(Some(o)),
        None => parse_color_space_name(None),
    };
    PdImage {
        object_id,
        resource_name: from_utf8_lossy(name.as_bytes()),
        width,
        height,
        bits_per_component,
        color_space,
        color_space_obj,
        smask: extract_smask(dict, store),
        filter_names,
        data: clone_bytes(stream.data.as_slice()),
        filter,
    }
}

// ---------------------------------------------------------------------------
// The images a page draws
// ---------------------------------------------------------------------------

/// `/Type /XObject /Subtype /Image`.
pub open spec fn is_image_dict(d: Seq<(Seq<u8>, CosValue)>) -> bool {
    dict_lookup(d, lit("Subtype")) == Some(CosValue::Name(lit("Image")))
        && dict_lookup(d, lit("Type")) == Some(CosValue::Name(lit("XObject")))
}

/// The image XObjects drawn by the names from `i`, each once: an image
/// referenced by id is kept the first time its id comes, one held directly
/// the first time its name (as text) comes. `ids` and `seen` are the ids
/// and names taken so far.
pub open spec fn picks(names: Seq<Seq<u8>>, i: int, xo: Seq<(Seq<u8>, CosValue)>, store: Seq<(ObjectId, CosValue)>,
    ids: Seq<ObjectId>, seen: Seq<Seq<char>>) -> Seq<Pick>
    decreases names.len() - i,
{
    if i < 0 || i >= names.len() {
        Seq::empty()
    } else {
        let n = names[i];
        match stream_of(dict_lookup(xo, n), store) {
            None => picks(names, i + 1, xo, store, ids, seen),
            Some((oid, d, data)) => if !is_image_dict(d) {
                picks(names, i + 1, xo, store, ids, seen)
            } else {
                match oid {
                    Some(id) => if ids.contains(id) {
                        picks(names, i + 1, xo, store, ids, seen)
                    } else {
                        seq![(oid, n, d, data)] + picks(names, i + 1, xo, store, ids.push(id), seen)
                    },
                    None => if seen.contains(utf8_lossy(n)) {
                        picks(names, i + 1, xo, store, ids, seen)
                    } else {
                        seq![(oid, n, d, data)] + picks(names, i + 1, xo, store, ids, seen.push(utf8_lossy(n)))
                    },
                }
            },
        }
    }
}

fn contains_id(v: &Vec<ObjectId>, id: ObjectId) -> (r: bool)
    ensures r == v@.contains(id),
{
    let mut i: usize = 0;
    while i < v.len()
        invariant i <= v@.len(), forall|k: int| 0 <= k < i ==> v@[k] != id,
        decreases v.len() - i,
    {
        if v[i].same(&id) {
            proof { assert(v@[i as int] == id); }
            return true;
        }
        i += 1;
    }
    false
}

fn contains_text(v: &Vec<String>, t: &String) -> (r: bool)
    ensures r == texts(v@).contains(t@),
{
    let mut i: usize = 0;
    while i < v.len()
        invariant i <= v@.len(), forall|k: int| 0 <= k < i ==> v@[k]@ != t@,
        decreases v.len() - i,
    {
        if crate::text::str_eq(v[i].as_str(), t.as_str()) {
            proof { assert(texts(v@)[i as int] == t@); }
            return true;
        }
        i += 1;
    }
    proof {
        assert forall|k: int| 0 <= k < texts(v@).len() implies texts(v@)[k] != t@ by {
            assert(texts(v@)[k] == v@[k]@);
        }
    }
    false
}

/// The images of the XObjects `xobjects` the names draw (see `picks`).
pub fn xobject_images(names: &Vec<CosName>, xobjects: &CosDictionary, store: &ObjectStore) -> (r: Vec<PdImage>)
    ensures
        ({
            let pk = picks(name_bytes(names@), 0, xobjects@, store@, Seq::empty(), Seq::empty());
            &&& r@.len() == pk.len()
            &&& forall|k: int| 0 <= k < pk.len() ==> xobject_image_ok(#[trigger] r@[k], pk[k], store@)
        }),
{
    let ghost nb = name_bytes(names@);
    let ghost all = picks(nb, 0, xobjects@, store@, Seq::empty(), Seq::empty());
    let ghost mut done: Seq<Pick> = Seq::empty();
    let mut out: Vec<PdImage> = Vec::new();
    let mut seen_ids: Vec<ObjectId> = Vec::new();
    let mut seen_names: Vec<String> = Vec::new();
    let mut i: usize = 0;
    proof { assert(texts(seen_names@) =~= Seq::<Seq<char>>::empty()); assert(done + all =~= all); }
    while i < names.len()
        invariant
            i <= names@.len(),
            nb == name_bytes(names@),
            all == picks(nb, 0, xobjects@, store@, Seq::empty(), Seq::empty()),
            all == done + picks(nb, i as int, xobjects@, store@, seen_ids@, texts(seen_names@)),
            out@.len() == done.len(),
            forall|k: int| 0 <= k < done.len() ==> xobject_image_ok(#[trigger] out@[k], done[k], store@),
        decreases names.len() - i,
    {
        let name = &names[i];
        let ghost n = nb[i as int];
        proof { assert(n == name.bytes@); }
        let ghost ids = seen_ids@;
        let ghost seen = texts(seen_names@);
        match resolve_stream(xobjects.get(name), store) {
            None => {}
            Some((oid, stream)) => {
                if super::is_image_xobject(&stream.dictionary) {
                    let take = match oid {
                        Some(id) => {
                            if contains_id(&seen_ids, id) {
                                false
                            } else {
                                seen_ids.push(id);
                                true
                            }
                        }
                        None => {
                            let text = from_utf8_lossy(name.as_bytes());
                            if contains_text(&seen_names, &text) {
                                false
                            } else {
                                seen_names.push(text);
                                proof { assert(texts(seen_names@) =~= seen.push(utf8_lossy(n))); }
                                true
                            }
                        }
                    };
                    if take {
                        let img = image_from_xobject(oid, name, stream, store);
                        let ghost pk: Pick = (oid, n, stream.dictionary@, stream.data@);
                        let ghost d0 = done;
                        let ghost o0 = out@;
                        out.push(img);
                        proof {
                            done = done.push(pk);
                            assert(all == done + picks(nb, i + 1, xobjects@, store@, seen_ids@, texts(seen_names@))) by {
                                assert(d0 + (seq![pk] + picks(nb, i + 1, xobjects@, store@, seen_ids@, texts(seen_names@)))
                                    =~= done + picks(nb, i + 1, xobjects@, store@, seen_ids@, texts(seen_names@)));
                            }
                            assert forall|k: int| 0 <= k < done.len() implies xobject_image_ok(#[trigger] out@[k], done[k], store@) by {
                                if k < d0.len() { assert(out@[k] == o0[k]); }
                            }
                        }
                    }
                }
            }
        }
        i += 1;
    }
    proof { assert(done + Seq::<Pick>::empty() =~= done); }
    out
}

/// `true` when every inline image of `c` that is found has data that ends
/// at or after where it starts (see `inline_scan`).
pub fn inline_images_well_formed(content: &[u8]) -> (r: bool)
    ensures r == (inline_scan(content@, 0) is Some),
{
    let ghost c = content@;
    let mut i: usize = 0;
    while i < content.len() && content.len() - i > 2
        invariant
            c == content@,
            i <= c.len(),
            inline_scan(c, 0) is Some <==> inline_scan(c, i as int) is Some,
        decreases content.len() - i,
    {
        if !marker_at_exec(content, i, 0x42, 0x49) {
            i += 1;
        } else {
            let mut j = i + 2;
            while j < content.len() && is_white(content[j])
                invariant i + 2 <= j <= c.len(), c == content@, skip_white_from(c, i + 2) == skip_white_from(c, j as int),
                decreases content.len() - j,
            {
                j += 1;
            }
            if j >= content.len() {
                return true;
            }
            let (_, data_start) = match find_id_marker(content, j) {
                Some(p) => p,
                None => return true,
            };
            let data_end = match find_ei_marker(content, data_start) {
                Some(e) => e,
                None => return true,
            };
            proof {
                lemma_first_marker(c, j as int, 0x49, 0x44);
                lemma_first_marker(c, data_start as int, 0x45, 0x49);
            }
            if data_end < data_start {
                return false;
            }
            i = data_end + 2;
        }
    }
    proof { assert(inline_scan(c, i as int) == Some(Seq::<(Seq<u8>, Seq<u8>)>::empty())); }
    true
}

/// `v` holds the inline images `b` (numbered from 1), then the image
/// XObjects `pk`.
pub open spec fn images_ok(v: Seq<PdImage>, b: Seq<(Seq<(Seq<u8>, CosValue)>, Seq<u8>)>, pk: Seq<Pick>,
    store: Seq<(ObjectId, CosValue)>) -> bool {
    &&& v.len() == b.len() + pk.len()
    &&& forall|k: int| 0 <= k < b.len() ==> inline_image_ok(#[trigger] v[k], b[k].0, b[k].1, k + 1)
    &&& forall|k: int| 0 <= k < pk.len() ==> xobject_image_ok(#[trigger] v[b.len() + k], pk[k], store)
}

/// The image XObjects a page with dictionary `pd` and content `c` draws:
/// those its `Do` operators name in its `/Resources` `/XObject` dictionary.
pub open spec fn content_picks(pd: Seq<(Seq<u8>, CosValue)>, c: Seq<u8>, store: Seq<(ObjectId, CosValue)>) -> Seq<Pick> {
    match dict_of(dict_lookup(pd, lit("Resources")), store) {
        Some(r) => match dict_of(dict_lookup(r, lit("XObject")), store) {
            Some(xo) => picks(do_names(c), 0, xo, store, Seq::empty(), Seq::empty()),
            None => Seq::empty(),
        },
        None => Seq::empty(),
    }
}

/// The images of a page with dictionary `page_dict` and content
/// `content`: its inline images, then the image XObjects it draws (see
/// `images_ok`). An error when an inline image's data would end before it
/// starts.
pub fn images_from_content(page_dict: &CosDictionary, content: &[u8], store: &ObjectStore) -> (r: Result<Vec<PdImage>, PdfError>)
    ensures
        match inline_scan(content@, 0) {
            None => r is Err,
            Some(found) => r is Ok && images_ok(r->Ok_0@, inline_built(found), content_picks(page_dict@, content@, store@), store@),
        },
{
    if !inline_images_well_formed(content) {
        return Err(PdfError::parse("inline image data ends before it starts", None));
    }
    let mut out = extract_inline_images(content);
    let ghost b = inline_built(inline_scan(content@, 0)->Some_0);
    let ghost pk = content_picks(page_dict@, content@, store@);
    let resources = resolve_dict(page_dict.get(&CosName::resources()), store);
    let xobjects = match resources {
        Some(r) => resolve_dict(r.get(&CosName::named("XObject")), store),
        None => None,
    };
    let xobjects = match xobjects {
        Some(x) => x,
        None => {
            proof { assert(pk =~= Seq::<Pick>::empty()); }
            return Ok(out);
        }
    };
    let names = do_operand_names(content);
    let mut more = xobject_images(&names, xobjects, store);
    let ghost o0 = out@;
    let ghost m0 = more@;
    out.append(&mut more);
    proof {
        assert(out@ =~= o0 + m0);
        assert forall|k: int| 0 <= k < pk.len() implies xobject_image_ok(#[trigger] out@[b.len() + k], pk[k], store@) by {
            assert(out@[b.len() + k] == m0[k]);
        }
        assert forall|k: int| 0 <= k < b.len() implies inline_image_ok(#[trigger] out@[k], b[k].0, b[k].1, k + 1) by {
            assert(out@[k] == o0[k]);
        }
    }
    Ok(out)
}

// ---------------------------------------------------------------------------
// Page content
// ---------------------------------------------------------------------------

/// The raw data and filter of the content stream a `/Contents` item is or
/// references.
pub open spec fn part_of(v: CosValue, store: Seq<(ObjectId, CosValue)>) -> Option<(Seq<u8>, Option<CosValue>)> {
    match stream_of(Some(v), store) {
        Some((_, d, data)) => Some((data, dict_lookup(d, lit("Filter")))),
        None => None,
    }
}

/// The content streams of a `/Contents` array, in order, leaving out items
/// that are not streams.
pub open spec fn parts_of(a: Seq<CosValue>, store: Seq<(ObjectId, CosValue)>) -> Seq<(Seq<u8>, Option<CosValue>)>
    decreases a.len(),
{
    if a.len() == 0 {
        Seq::empty()
    } else {
        parts_of(a.drop_last(), store) + match part_of(a.last(), store) {
            Some(x) => seq![x],
            None => Seq::empty(),
        }
    }
}

/// The content streams of a page dictionary: its `/Contents` stream or
/// array of streams.
pub open spec fn content_parts(pd: Seq<(Seq<u8>, CosValue)>, store: Seq<(ObjectId, CosValue)>) -> Seq<(Seq<u8>, Option<CosValue>)> {
    match dict_lookup(pd, lit("Contents")) {
        Some(CosValue::Array(a)) => parts_of(a, store),
        Some(v) => match part_of(v, store) {
            Some(x) => seq![x],
            None => Seq::empty(),
        },
        None => Seq::empty(),
    }
}

/// The content streams decoded and joined with a line feed between them;
/// the first that does not decode decides the outcome.
pub open spec fn decode_all(parts: Seq<(Seq<u8>, Option<CosValue>)>) -> Decoded
    decreases parts.len(),
{
    if parts.len() == 0 {
        Decoded::Out(Seq::empty())
    } else {
        match decode_all(parts.drop_last()) {
            Decoded::Out(acc) => match decode_spec(parts.last().0, parts.last().1) {
                Decoded::Out(o) => Decoded::Out(if parts.len() == 1 { o } else { acc + seq![0x0au8] + o }),
                other => other,
            },
            other => other,
        }
    }
}

/// The decoded content of a page with dictionary `pd`.
pub open spec fn page_content(pd: Seq<(Seq<u8>, CosValue)>, store: Seq<(ObjectId, CosValue)>) -> Decoded {
    decode_all(content_parts(pd, store))
}

/// The `/Contents` items as a list: the items of an array, or the one item.
fn contents_items(pd: &CosDictionary) -> (r: Vec<&CosObject>)
    ensures
        match dict_lookup(pd@, lit("Contents")) {
            Some(CosValue::Array(a)) => r@.len() == a.len() && forall|k: int| 0 <= k < a.len() ==> (#[trigger] r@[k])@ == a[k],
            Some(v) => r@.len() == 1 && r@[0]@ == v,
            None => r@.len() == 0,
        },
{
    let mut v: Vec<&CosObject> = Vec::new();
    match pd.get(&CosName::contents()) {
        Some(CosObject::Array(items)) => {
            proof { crate::cos::lemma_view_objs(items@); }
            let mut i: usize = 0;
            while i < items.len()
                invariant i <= items@.len(), v@.len() == i,
                    forall|k: int| 0 <= k < i ==> (#[trigger] v@[k])@ == items@[k]@,
                decreases items.len() - i,
            {
                v.push(&items[i]);
                i += 1;
            }
            proof {
                assert forall|k: int| 0 <= k < items@.len() implies (#[trigger] v@[k])@ == view_objs(items@)[k] by {}
            }
        }
        Some(o) => v.push(o),
        None => {}
    }
    v
}

impl Document {
    /// The ids of the pages in order; none when the page tree cannot be
    /// walked.
    pub fn page_object_ids(&self) -> (r: Vec<ObjectId>)
        ensures
            r@ == match document_pages(self) {
                Some(p) => p,
                None => Seq::empty(),
            },
    {
        let mut ids: Vec<ObjectId> = Vec::new();
        match self.pages() {
            Ok(t) => {
                let mut i: usize = 0;
                while i < t.pages.len()
                    invariant i <= t.pages@.len(), ids@ == ids_of(t.pages@).take(i as int),
                    decreases t.pages.len() - i,
                {
                    ids.push(t.pages[i].0);
                    proof { assert(ids@ =~= ids_of(t.pages@).take(i + 1)); }
                    i += 1;
                }
                proof { assert(ids_of(t.pages@).take(t.pages@.len() as int) =~= ids_of(t.pages@)); }
            }
            Err(_) => {}
        }
        ids
    }

    /// The decoded content of the page with dictionary `page_dict` (see
    /// `page_content`); an error when a content stream does not decode.
    pub fn page_content_bytes(&self, page_dict: &CosDictionary) -> (r: Result<Vec<u8>, PdfError>)
        ensures
            match page_content(page_dict@, self.objects@) {
                Decoded::Out(c) => r is Ok && r->Ok_0@ == c,
                _ => r is Err,
            },
    {
        let items = contents_items(page_dict);
        let ghost parts = content_parts(page_dict@, self.objects@);
        let ghost a: Seq<CosValue> = Seq::new(items@.len(), |k: int| items@[k]@);
        let ghost single = !(dict_lookup(page_dict@, lit("Contents")) matches Some(CosValue::Array(_)));
        proof {
            if !single {
                assert(dict_lookup(page_dict@, lit("Contents")) matches Some(CosValue::Array(x)) && x =~= a);
            }
        }
        proof {
            if single {
                match dict_lookup(page_dict@, lit("Contents")) {
                    Some(v) => {
                        assert(a.len() == 1 && a[0] == v);
                        assert(a.drop_last() =~= Seq::<CosValue>::empty());
                        assert(parts_of(a.drop_last(), self.objects@) =~= Seq::<(Seq<u8>, Option<CosValue>)>::empty());
                        assert(content_parts(page_dict@, self.objects@) =~= parts_of(a, self.objects@));
                    }
                    None => {
                        assert(a.len() == 0);
                        assert(content_parts(page_dict@, self.objects@) =~= parts_of(a, self.objects@));
                    }
                }
            }
        }
        let mut out: Vec<u8> = Vec::new();
        let mut count: usize = 0;
        let mut i: usize = 0;
        proof { assert(parts_of(a.take(0), self.objects@) =~= Seq::<(Seq<u8>, Option<CosValue>)>::empty()); }
        while i < items.len()
            invariant
                i <= items@.len(),
                a.len() == items@.len(),
                forall|k: int| 0 <= k < a.len() ==> a[k] == (#[trigger] items@[k])@,
                count as int == parts_of(a.take(i as int), self.objects@).len(),
                count <= i,
                decode_all(parts_of(a.take(i as int), self.objects@)) == Decoded::Out(out@),
                content_parts(page_dict@, self.objects@) == parts_of(a, self.objects@),
            decreases items.len() - i,
        {
            let ghost before = parts_of(a.take(i as int), self.objects@);
            proof { assert(a.take(i + 1).drop_last() =~= a.take(i as int)); }
            match resolve_stream(Some(items[i]), &self.objects) {
                None => {
                    proof { assert(parts_of(a.take(i + 1), self.objects@) =~= before); }
                }
                Some((_, stream)) => {
                    let filter = stream.dictionary.get(&CosName::filter());
                    match decode_stream(stream.data.as_slice(), filter) {
                        Ok(d) => {
                            let ghost out_old = out@;
                            if count > 0 {
                                out.push(0x0a);
                            }
                            let mut k: usize = 0;
                            let ghost o0 = out@;
                            while k < d.len()
                                invariant k <= d@.len(), out@ == o0 + d@.take(k as int),
                                decreases d.len() - k,
                            {
                                out.push(d[k]);
                                proof { assert(out@ =~= o0 + d@.take(k + 1)); }
                                k += 1;
                            }
                            proof {
                                assert(d@.take(d@.len() as int) =~= d@);
                                assert(parts_of(a.take(i + 1), self.objects@) =~= before.push((stream.data@, dict_lookup(stream.dictionary@, lit("Filter")))));
                                assert(parts_of(a.take(i + 1), self.objects@).drop_last() =~= before);
                                assert(decode_spec(stream.data@, dict_lookup(stream.dictionary@, lit("Filter"))) == Decoded::Out(d@));
                                let np = parts_of(a.take(i + 1), self.objects@);
                                assert(decode_all(np.drop_last()) == Decoded::Out(out_old));
                                if count == 0 {
                                    assert(before.len() == 0);
                                    assert(out@ =~= d@);
                                    assert(decode_all(np) == Decoded::Out(d@));
                                } else {
                                    assert(out@ =~= out_old + seq![0x0au8] + d@);
                                    assert(decode_all(np) == Decoded::Out(out_old + seq![0x0au8] + d@));
                                }
                            }
                            count = if count < usize::MAX { count + 1 } else { count };
                        }
                        Err(_) => {
                            proof {
                                let np = parts_of(a.take(i + 1), self.objects@);
                                assert(np =~= before.push((stream.data@, dict_lookup(stream.dictionary@, lit("Filter")))));
                                assert(np.drop_last() =~= before);
                                lemma_decode_all_stays_bad(a, self.objects@, i as int + 1);
                            }
                            return Err(PdfError::parse("content stream does not decode", None));
                        }
                    }
                }
            }
            i += 1;
        }
        proof { assert(a.take(a.len() as int) =~= a); }
        Ok(out)
    }

    /// The images on page `page_index` (see `images_from_content`): an
    /// error when there is no such page, it is not stored or not a
    /// dictionary, or its content does not decode.
    pub fn extract_images(&self, page_index: usize) -> (r: Result<Vec<PdImage>, PdfError>)
        ensures
            ({
                let ids = match document_pages(self) { Some(p) => p, None => Seq::empty() };
                &&& page_index >= ids.len() ==> r is Err
                &&& page_index < ids.len() ==> match store_find(self.objects@, ids[page_index as int]) {
                    Some(CosValue::Dict(pd)) => match page_content(pd, self.objects@) {
                        Decoded::Out(c) => match inline_scan(c, 0) {
                            None => r is Err,
                            Some(found) => r is Ok && images_ok(r->Ok_0@, inline_built(found), content_picks(pd, c, self.objects@), self.objects@),
                        },
                        _ => r is Err,
                    },
                    Some(_) => r matches Err(PdfError::Parse { .. }),
                    None => r matches Err(PdfError::Xref { object_id: x }) && x == Some(ids[page_index as int]),
                }
            }),
    {
        let ids = self.page_object_ids();
        if page_index >= ids.len() {
            return Err(PdfError::parse("page index out of range", None));
        }
        let page_id = ids[page_index];
        let page_dict = match self.objects.get(&page_id) {
            Some(CosObject::Dictionary(d)) => d,
            Some(_) => return Err(PdfError::parse("page object is not a dictionary", None)),
            None => return Err(PdfError::Xref { object_id: Some(page_id) }),
        };
        let content = self.page_content_bytes(page_dict)?;
        images_from_content(page_dict, content.as_slice(), &self.objects)
    }
}

proof fn lemma_decode_all_stays_bad(a: Seq<CosValue>, store: Seq<(ObjectId, CosValue)>, i: int)
    requires 0 <= i <= a.len(), !(decode_all(parts_of(a.take(i), store)) is Out),
    ensures !(decode_all(parts_of(a, store)) is Out),
    decreases a.len() - i,
{
    if i < a.len() {
        let p0 = parts_of(a.take(i), store);
        assert(a.take(i + 1).drop_last() =~= a.take(i));
        let p1 = parts_of(a.take(i + 1), store);
        if p1.len() > p0.len() {
            assert(p1 =~= p0.push(p1.last()));
            assert(p1.drop_last() =~= p0);
        } else {
            assert(p1 =~= p0);
        }
        lemma_decode_all_stays_bad(a, store, i + 1);
    } else {
        assert(a.take(i) =~= a);
    }
}

} // verus!

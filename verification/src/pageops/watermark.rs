//! Text watermarks: a content stream per page, added over (or under) the
//! page's own content, with Helvetica registered in the page's resources.
//! The stream that places the text is built by the caller (its geometry is
//! floating-point); this module escapes the text, registers the font,
//! stores the streams and links them into each page's `/Contents`.

use vstd::prelude::*;
use crate::bytes::lit;
use crate::cos::{CosDictionary, CosName, CosObject, CosValue, ObjectId, dict_insert, dict_lookup, view_objs};
use crate::document::{Document, PdfResult, store_find};
use crate::forms::flatten::{Look, fresh_for, lemma_rising_push, look_of, ref_of, stores, upd};
use crate::parser::xref::XRefEntry;
use crate::pdmodel::page_tree::document_pages;

verus! {

/// The Helvetica font dictionary a watermark draws with.
pub open spec fn helvetica_entries() -> Seq<(Seq<u8>, CosValue)> {
    dict_insert(dict_insert(dict_insert(Seq::empty(), lit("Type"), CosValue::Name(lit("Font"))),
        lit("Subtype"), CosValue::Name(lit("Type1"))), lit("BaseFont"), CosValue::Name(lit("Helvetica")))
}

/// A page's `/Resources` dictionary; empty when it has none inline.
pub open spec fn page_resources(pd: Seq<(Seq<u8>, CosValue)>) -> Seq<(Seq<u8>, CosValue)> {
    match dict_lookup(pd, lit("Resources")) {
        Some(CosValue::Dict(r)) => r,
        _ => Seq::empty(),
    }
}

/// The `/Font` dictionary of some resources; empty when there is none.
pub open spec fn font_entries(res: Seq<(Seq<u8>, CosValue)>) -> Seq<(Seq<u8>, CosValue)> {
    match dict_lookup(res, lit("Font")) {
        Some(CosValue::Dict(f)) => f,
        _ => Seq::empty(),
    }
}

/// The resources already name a font `/Helvetica`.
pub open spec fn has_helvetica(res: Seq<(Seq<u8>, CosValue)>) -> bool {
    match dict_lookup(res, lit("Font")) {
        Some(CosValue::Dict(f)) => dict_lookup(f, lit("Helvetica")) is Some,
        _ => false,
    }
}

/// A stored page with Helvetica registered: unchanged when its resources
/// name it already, else its `/Resources` (a fresh dictionary when it had
/// none inline) get `/Font` `/Helvetica`. Anything but a dictionary stays.
pub open spec fn with_helvetica(v: Option<CosValue>) -> Option<CosValue> {
    match v {
        Some(CosValue::Dict(pd)) => {
            let res = page_resources(pd);
            if has_helvetica(res) {
                v
            } else {
                let fonts = dict_insert(font_entries(res), lit("Helvetica"), CosValue::Dict(helvetica_entries()));
                Some(CosValue::Dict(dict_insert(pd, lit("Resources"),
                    CosValue::Dict(dict_insert(res, lit("Font"), CosValue::Dict(fonts))))))
            }
        },
        other => other,
    }
}

/// `/Contents` once the stream `sid` is added: a single reference becomes
/// a two-item array, an array gets it at the front (underlay) or back,
/// anything else is replaced by the reference.
pub open spec fn contents_with(c: Option<CosValue>, sid: ObjectId, underlay: bool) -> CosValue {
    match c {
        Some(CosValue::Ref(n, g)) => CosValue::Array(
            if underlay { seq![ref_of(sid), CosValue::Ref(n, g)] } else { seq![CosValue::Ref(n, g), ref_of(sid)] }),
        Some(CosValue::Array(a)) => CosValue::Array(if underlay { seq![ref_of(sid)] + a } else { a.push(ref_of(sid)) }),
        _ => ref_of(sid),
    }
}

/// A stored page with the stream `sid` linked into its `/Contents`.
pub open spec fn with_mark(v: Option<CosValue>, sid: ObjectId, underlay: bool) -> Option<CosValue> {
    match v {
        Some(CosValue::Dict(pd)) => Some(CosValue::Dict(dict_insert(pd, lit("Contents"),
            contents_with(dict_lookup(pd, lit("Contents")), sid, underlay)))),
        other => other,
    }
}

/// A content stream holding `data`, with its `/Length`.
pub open spec fn mark_stream(data: Seq<u8>) -> CosValue {
    CosValue::Stream(dict_insert(Seq::empty(), lit("Length"), CosValue::Integer((data.len() as i64) as int)), data)
}

/// The store after registering Helvetica on the first `k` pages.
pub open spec fn helv_fold(look: Look, pages: Seq<ObjectId>, k: int) -> Look
    decreases k,
{
    if k <= 0 {
        look
    } else {
        let prev = helv_fold(look, pages, k - 1);
        upd(prev, pages[k - 1], with_helvetica(prev(pages[k - 1])))
    }
}

/// The store after marking the first `k` pages: page `i` gets the stream
/// `streams[i]` stored under `ids[i]` and linked into its `/Contents`.
pub open spec fn mark_fold(look: Look, pages: Seq<ObjectId>, streams: Seq<Seq<u8>>, underlay: bool,
    ids: Seq<ObjectId>, k: int) -> Look
    decreases k,
{
    if k <= 0 {
        look
    } else {
        let prev = mark_fold(look, pages, streams, underlay, ids, k - 1);
        let sid = ids[k - 1];
        let l1 = upd(prev, sid, Some(mark_stream(streams[k - 1])));
        upd(l1, pages[k - 1], with_mark(l1(pages[k - 1]), sid, underlay))
    }
}

/// The store after watermarking `pages`: Helvetica registered on each page,
/// then each page's stream stored and linked in, in page order.
pub open spec fn watermarked(look: Look, pages: Seq<ObjectId>, streams: Seq<Seq<u8>>, underlay: bool,
    ids: Seq<ObjectId>) -> Look
{
    mark_fold(helv_fold(look, pages, pages.len() as int), pages, streams, underlay, ids, pages.len() as int)
}

/// The streams as byte sequences.
pub open spec fn stream_views(s: Seq<Vec<u8>>) -> Seq<Seq<u8>> {
    Seq::new(s.len(), |i: int| s[i]@)
}

/// A byte of watermark text as written inside a literal string.
pub open spec fn escaped_byte(b: u8) -> Seq<u8> {
    if b == 0x28u8 || b == 0x29u8 || b == 0x5cu8 { seq![0x5cu8, b] } else { seq![b] }
}

/// Text with `(`, `)` and `\` escaped by a backslash.
pub open spec fn paren_escaped(t: Seq<u8>) -> Seq<u8>
    decreases t.len(),
{
    if t.len() == 0 { Seq::empty() } else { paren_escaped(t.drop_last()) + escaped_byte(t.last()) }
}

/// The folds use only the first `k` fresh ids.
proof fn lemma_mark_fold_ids(look: Look, pages: Seq<ObjectId>, streams: Seq<Seq<u8>>, underlay: bool,
    a: Seq<ObjectId>, b: Seq<ObjectId>, k: int)
    requires
        0 <= k <= a.len(),
        k <= b.len(),
        forall|i: int| 0 <= i < k ==> a[i] == b[i],
    ensures mark_fold(look, pages, streams, underlay, a, k) == mark_fold(look, pages, streams, underlay, b, k),
    decreases k,
{
    if k > 0 {
        lemma_mark_fold_ids(look, pages, streams, underlay, a, b, k - 1);
    }
}

/// Writes `text` as the watermark's text-showing tail after `prefix` (the
/// lines that place and style it): `(` + the text with `(`, `)` and `\`
/// escaped + `) Tj`, then `ET` and `Q`, each on its own line.
pub fn watermark_text_stream(prefix: &[u8], text: &str) -> (r: Vec<u8>)
    ensures r@ == prefix@ + lit("(") + paren_escaped(lit(text)) + lit(") Tj\nET\nQ\n"),
{
    let mut out = crate::bytes::clone_bytes(prefix);
    out.push(0x28u8);
    let ghost head = out@;
    proof { reveal_strlit("("); vstd::string::is_ascii_spec_bytes("("); assert(head =~= prefix@ + lit("(")); }
    let t = text.as_bytes();
    let mut i: usize = 0;
    while i < t.len()
        invariant i <= t@.len(), t@ == lit(text), out@ == head + paren_escaped(t@.take(i as int)),
        decreases t.len() - i,
    {
        let b = t[i];
        proof { assert(t@.take(i + 1).drop_last() =~= t@.take(i as int)); }
        if b == 0x28u8 || b == 0x29u8 || b == 0x5cu8 {
            out.push(0x5cu8);
        }
        out.push(b);
        proof { assert(out@ =~= head + paren_escaped(t@.take(i + 1))); }
        i += 1;
    }
    proof { assert(t@.take(t@.len() as int) =~= t@); }
    let tail = crate::bytes::str_bytes(") Tj\nET\nQ\n");
    let ghost mid = out@;
    out.extend_from_slice(tail.as_slice());
    proof { assert(out@ =~= mid + tail@); }
    out
}

/// Makes sure page `page_id` offers Helvetica under its resources' `/Font`
/// (see `with_helvetica`); nothing else changes.
pub fn ensure_helvetica_font(doc: &mut Document, page_id: ObjectId) -> (r: PdfResult<()>)
    ensures
        r is Ok,
        forall|q: ObjectId| #[trigger] store_find(final(doc).objects@, q)
            == if q == page_id { with_helvetica(store_find(old(doc).objects@, q)) } else { store_find(old(doc).objects@, q) },
        final(doc).xref@ == old(doc).xref@,
        final(doc).xref.trailer@ == old(doc).xref.trailer@,
        final(doc).last_allocated == old(doc).last_allocated,
{
    match doc.take_object(page_id) {
        Some(CosObject::Dictionary(mut dict)) => {
            let ghost pd = dict@;
            let mut resources = match dict.get(&CosName::resources()) {
                Some(CosObject::Dictionary(r)) => r.deep_clone(),
                _ => CosDictionary::new(),
            };
            assert(resources@ == page_resources(pd));
            let found = match resources.get(&CosName::named("Font")) {
                Some(CosObject::Dictionary(f)) => f.get(&CosName::named("Helvetica")).is_some(),
                _ => false,
            };
            assert(found == has_helvetica(resources@));
            if !found {
                let mut helvetica = CosDictionary::new();
                helvetica.insert(CosName::type_key(), CosObject::Name(CosName::named("Font")));
                helvetica.insert(CosName::named("Subtype"), CosObject::Name(CosName::named("Type1")));
                helvetica.insert(CosName::named("BaseFont"), CosObject::Name(CosName::named("Helvetica")));
                let mut fonts = match resources.get(&CosName::named("Font")) {
                    Some(CosObject::Dictionary(f)) => f.deep_clone(),
                    _ => CosDictionary::new(),
                };
                assert(fonts@ == font_entries(resources@));
                fonts.insert(CosName::named("Helvetica"), CosObject::Dictionary(helvetica));
                resources.insert(CosName::named("Font"), CosObject::Dictionary(fonts));
                dict.insert(CosName::resources(), CosObject::Dictionary(resources));
            }
            doc.insert_object(page_id, CosObject::Dictionary(dict));
        }
        Some(other) => doc.insert_object(page_id, other),
        None => {}
    }
    Ok(())
}

/// Stores `data` as a new content stream and links it into page
/// `page_id`'s `/Contents` (see `with_mark`); returns the stream's id.
pub(crate) fn mark_page(doc: &mut Document, page_id: ObjectId, data: Vec<u8>, underlay: bool) -> (sid: ObjectId)
    ensures
        forall|q: ObjectId| #[trigger] store_find(old(doc).objects@, q) is Some && q.object_number < u32::MAX
            ==> q.object_number < sid.object_number,
        forall|q: ObjectId| #[trigger] store_find(final(doc).objects@, q)
            == upd(upd(look_of(*old(doc)), sid, Some(mark_stream(data@))), page_id,
                with_mark(upd(look_of(*old(doc)), sid, Some(mark_stream(data@)))(page_id), sid, underlay))(q),
        final(doc).xref.trailer@ == old(doc).xref.trailer@,
        final(doc).last_allocated == sid.object_number,
        old(doc).last_allocated <= sid.object_number,
        old(doc).last_allocated < u32::MAX ==> old(doc).last_allocated < sid.object_number,
{
    let ghost l0 = look_of(*doc);
    let ghost dv = data@;
    let sid = doc.allocate_object_id();
    let len = data.len() as i64;
    let mut dict = CosDictionary::new();
    dict.insert(CosName::length(), CosObject::Integer(len));
    doc.insert_object(sid, CosObject::Stream(crate::cos::CosStream::new(dict, data)));
    doc.xref.insert_if_absent(sid, XRefEntry::InUse { offset: 0, generation: 0 });
    let ghost l1 = upd(l0, sid, Some(mark_stream(dv)));
    assert(look_of(*doc) =~= l1);
    match doc.take_object(page_id) {
        Some(CosObject::Dictionary(mut pd)) => {
            let ghost pv = pd@;
            let key = CosName::contents();
            let added = CosObject::Reference(sid);
            let existing: Option<CosObject> = match pd.get(&key) {
                Some(v) => Some(v.deep_clone()),
                None => None,
            };
            let newc = match existing {
                Some(CosObject::Reference(e)) => {
                    let v = if underlay { vec![added, CosObject::Reference(e)] } else { vec![CosObject::Reference(e), added] };
                    proof { crate::cos::lemma_view_objs(v@); }
                    let ghost vv = view_objs(v@);
                    assert(vv =~= if underlay { seq![ref_of(sid), CosValue::Ref(e.object_number, e.generation)] }
                        else { seq![CosValue::Ref(e.object_number, e.generation), ref_of(sid)] });
                    CosObject::Array(v)
                }
                Some(CosObject::Array(mut arr)) => {
                    let ghost a0 = arr@;
                    if underlay {
                        arr.insert(0, added);
                    } else {
                        arr.push(added);
                    }
                    proof {
                        crate::cos::lemma_view_objs(arr@);
                        crate::cos::lemma_view_objs(a0);
                        if underlay {
                            assert(arr@ =~= a0.insert(0, CosObject::Reference(sid)));
                            assert forall|k: int| 0 <= k < arr@.len() implies
                                #[trigger] view_objs(arr@)[k] == (seq![ref_of(sid)] + view_objs(a0))[k] by {
                                if k > 0 { assert(arr@[k] == a0[k - 1]); }
                            }
                            assert(view_objs(arr@) =~= seq![ref_of(sid)] + view_objs(a0));
                        } else {
                            assert forall|k: int| 0 <= k < arr@.len() implies
                                #[trigger] view_objs(arr@)[k] == view_objs(a0).push(ref_of(sid))[k] by {
                                if k < a0.len() { assert(arr@[k] == a0[k]); }
                            }
                            assert(view_objs(arr@) =~= view_objs(a0).push(ref_of(sid)));
                        }
                    }
                    CosObject::Array(arr)
                }
                _ => added,
            };
            assert(newc@ == contents_with(dict_lookup(pv, lit("Contents")), sid, underlay));
            pd.insert(key, newc);
            doc.insert_object(page_id, CosObject::Dictionary(pd));
        }
        Some(other) => doc.insert_object(page_id, other),
        None => {}
    }
    sid
}

/// Adds one content stream per page, `page_streams[i]` for page `i`:
/// Helvetica is registered on every page first (see `ensure_helvetica_font`),
/// then each page's stream is stored under a fresh object number, with its
/// `/Length`, and linked before (`underlay`) or after the page's content
/// (see `watermarked`). A document without pages is left as it is.
pub fn add_watermark_streams(doc: &mut Document, page_streams: &[Vec<u8>], underlay: bool) -> (r: PdfResult<()>)
    requires
        document_pages(old(doc)) matches Some(p) ==> page_streams@.len() == p.len(),
    ensures
        r is Ok,
        final(doc).xref.trailer@ == old(doc).xref.trailer@,
        match document_pages(old(doc)) {
            Some(p) => if p.len() == 0 {
                final(doc).objects@ == old(doc).objects@
            } else {
                exists|ids: Seq<ObjectId>| #[trigger] fresh_for(*old(doc), ids) && ids.len() == p.len()
                    && stores(*final(doc), watermarked(look_of(*old(doc)), p, stream_views(page_streams@), underlay, ids))
            },
            None => final(doc).objects@ == old(doc).objects@,
        },
{
    let pages = doc.page_object_ids();
    if pages.len() == 0 {
        return Ok(());
    }
    let ghost d0 = *doc;
    let ghost l0 = look_of(*doc);
    let ghost p = pages@;
    let ghost sv = stream_views(page_streams@);
    let mut i: usize = 0;
    while i < pages.len()
        invariant
            i <= p.len(),
            pages@ == p,
            l0 == look_of(d0),
            doc.xref.trailer@ == d0.xref.trailer@,
            look_of(*doc) == helv_fold(l0, p, i as int),
            forall|q: ObjectId| #[trigger] store_find(d0.objects@, q) is Some ==> store_find(doc.objects@, q) is Some,
        decreases pages.len() - i,
    {
        let ghost before = *doc;
        let _ = ensure_helvetica_font(doc, pages[i]);
        proof {
            assert(look_of(*doc) =~= helv_fold(l0, p, i + 1));
            assert forall|q: ObjectId| #[trigger] store_find(d0.objects@, q) is Some implies store_find(doc.objects@, q) is Some by {
                assert(store_find(before.objects@, q) is Some);
            }
        }
        i += 1;
    }
    let ghost lh = look_of(*doc);
    let ghost mut ids: Seq<ObjectId> = Seq::empty();
    let mut j: usize = 0;
    while j < pages.len()
        invariant
            j <= p.len(),
            pages@ == p,
            page_streams@.len() == p.len(),
            sv == stream_views(page_streams@),
            l0 == look_of(d0),
            lh == helv_fold(l0, p, p.len() as int),
            doc.xref.trailer@ == d0.xref.trailer@,
            ids.len() == j,
            fresh_for(d0, ids),
            ids.len() > 0 ==> ids.last().object_number == doc.last_allocated,
            look_of(*doc) == mark_fold(lh, p, sv, underlay, ids, j as int),
            forall|q: ObjectId| #[trigger] store_find(d0.objects@, q) is Some ==> store_find(doc.objects@, q) is Some,
        decreases pages.len() - j,
    {
        let ghost before = *doc;
        let data = crate::bytes::clone_bytes(page_streams[j].as_slice());
        assert(data@ == sv[j as int]);
        let sid = mark_page(doc, pages[j], data, underlay);
        proof {
            lemma_rising_push(ids, before.last_allocated, sid);
            let ids2 = ids.push(sid);
            lemma_mark_fold_ids(lh, p, sv, underlay, ids, ids2, j as int);
            assert(ids2[j as int] == sid);
            assert(look_of(*doc) =~= mark_fold(lh, p, sv, underlay, ids2, j + 1));
            assert forall|k: int, q: ObjectId| 0 <= k < ids2.len() && #[trigger] store_find(d0.objects@, q) is Some
                && q.object_number < u32::MAX implies q.object_number < (#[trigger] ids2[k]).object_number by {
                if k < ids.len() {
                    assert(ids2[k] == ids[k]);
                } else {
                    assert(store_find(before.objects@, q) is Some);
                }
            }
            assert forall|q: ObjectId| #[trigger] store_find(d0.objects@, q) is Some implies store_find(doc.objects@, q) is Some by {
                assert(store_find(before.objects@, q) is Some);
                if q != sid && q != pages@[j as int] {
                    assert(store_find(doc.objects@, q) == store_find(before.objects@, q));
                }
            }
            ids = ids2;
        }
        j += 1;
    }
    proof {
        assert(stores(*doc, watermarked(l0, p, sv, underlay, ids)));
    }
    Ok(())
}

} // verus!

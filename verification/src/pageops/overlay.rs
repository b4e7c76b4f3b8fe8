//! Overlay: stamping the pages of one document onto the pages of another.
//! Base page `i` gets overlay page `i` (the last one again once the overlay
//! runs out) as a Form XObject named `Ov<i>`, drawn by a new content stream
//! after the page's own content. Where and how large the stamp is drawn
//! (a transform and the form's box) is computed by the caller.

use vstd::prelude::*;
use crate::bytes::lit;
use crate::cos::{CosDictionary, CosName, CosObject, CosValue, ObjectId, dict_insert, dict_lookup};
use crate::document::{Document, PdfResult, store_find};
use crate::forms::flatten::{Look, fresh_for, lemma_rising_push, look_of, ref_id, ref_of, stores, stream_bytes, upd};
use crate::pageops::watermark::{mark_page, mark_stream, page_resources, with_mark};
use crate::parser::xref::XRefEntry;
use crate::pdmodel::page_tree::document_pages;

verus! {

/// Where a stamp goes on one base page: the transform line
/// (`sx 0 0 sy x y cm` and a newline) and the width and height of the
/// form's `/BBox`, as the text of real numbers.
pub struct OverlayPlacement {
    pub transform: Vec<u8>,
    pub width: Vec<u8>,
    pub height: Vec<u8>,
}

/// The decimal digits of `n`.
pub open spec fn digit_bytes(n: nat) -> Seq<u8>
    decreases n,
{
    if n < 10 { seq![(n + 0x30) as u8] } else { digit_bytes(n / 10).push(((n % 10) + 0x30) as u8) }
}

/// The name of the form stamped on base page `i`.
pub open spec fn ov_name(i: nat) -> Seq<u8> {
    lit("Ov") + digit_bytes(i)
}

/// The data of the stream a content item references; empty otherwise.
pub open spec fn raw_stream(look: Look, v: CosValue) -> Seq<u8> {
    match ref_id(v) {
        Some(id) => match stream_bytes(look, id) {
            Some(b) => b,
            None => Seq::empty(),
        },
        None => Seq::empty(),
    }
}

/// The data of the streams an array's references name, one after another.
pub open spec fn raw_concat(look: Look, a: Seq<CosValue>) -> Seq<u8>
    decreases a.len(),
{
    if a.len() == 0 { Seq::empty() } else { raw_concat(look, a.drop_last()) + raw_stream(look, a.last()) }
}

/// A page's content as stored (not decoded): its `/Contents` stream, the
/// streams of a `/Contents` array one after another, or nothing.
pub open spec fn raw_page_content(look: Look, pd: Seq<(Seq<u8>, CosValue)>) -> Seq<u8> {
    match dict_lookup(pd, lit("Contents")) {
        Some(CosValue::Ref(n, g)) => raw_stream(look, CosValue::Ref(n, g)),
        Some(CosValue::Array(a)) => raw_concat(look, a),
        Some(CosValue::Stream(_, data)) => data,
        _ => Seq::empty(),
    }
}

/// The stored content of page `id` of `d`.
pub open spec fn overlay_content(d: Document, id: ObjectId) -> Seq<u8> {
    match store_find(d.objects@, id) {
        Some(CosValue::Dict(pd)) => raw_page_content(look_of(d), pd),
        _ => Seq::empty(),
    }
}

/// The stored content of each page.
pub open spec fn overlay_contents(d: Document, pages: Seq<ObjectId>) -> Seq<Seq<u8>> {
    Seq::new(pages.len(), |j: int| overlay_content(d, pages[j]))
}

/// The overlay page used for base page `i` out of `n`.
pub open spec fn pick(n: int, i: int) -> int {
    if i < n - 1 { i } else { n - 1 }
}

/// A Form XObject's dictionary: `/Type /XObject`, `/Subtype /Form`,
/// `/BBox [0 0 w h]` and `/Length`.
pub open spec fn form_entries(w: Seq<u8>, h: Seq<u8>, len: int) -> Seq<(Seq<u8>, CosValue)> {
    dict_insert(dict_insert(dict_insert(dict_insert(Seq::empty(),
        lit("Type"), CosValue::Name(lit("XObject"))),
        lit("Subtype"), CosValue::Name(lit("Form"))),
        lit("BBox"), CosValue::Array(seq![CosValue::Real(lit("0")), CosValue::Real(lit("0")), CosValue::Real(w), CosValue::Real(h)])),
        lit("Length"), CosValue::Integer((len as i64) as int))
}

/// A stored page with `name -> fid` set in its resources' `/XObject`
/// (fresh dictionaries for resources or `/XObject` that are not inline).
pub open spec fn with_xobject(v: Option<CosValue>, name: Seq<u8>, fid: ObjectId) -> Option<CosValue> {
    match v {
        Some(CosValue::Dict(pd)) => {
            let res = page_resources(pd);
            let xo = match dict_lookup(res, lit("XObject")) {
                Some(CosValue::Dict(x)) => x,
                _ => Seq::empty(),
            };
            Some(CosValue::Dict(dict_insert(pd, lit("Resources"),
                CosValue::Dict(dict_insert(res, lit("XObject"), CosValue::Dict(dict_insert(xo, name, ref_of(fid))))))))
        },
        other => other,
    }
}

/// The content stream that draws the form `name` with a transform.
pub open spec fn stamp_stream(transform: Seq<u8>, name: Seq<u8>) -> Seq<u8> {
    lit("q\n") + transform + lit("/") + name + lit(" Do\nQ\n")
}

/// Stamping base page `page` (number `i`) with `content`: the form stored
/// under `fid` and named in the page's resources, then the stream that
/// draws it stored under `sid` and added after the page's content.
pub open spec fn stamp_step(look: Look, page: ObjectId, i: nat, content: Seq<u8>, pl: OverlayPlacement,
    fid: ObjectId, sid: ObjectId) -> Look
{
    let l1 = upd(look, fid, Some(CosValue::Stream(form_entries(pl.width@, pl.height@, content.len() as int), content)));
    let l2 = upd(l1, page, with_xobject(l1(page), ov_name(i), fid));
    let l3 = upd(l2, sid, Some(mark_stream(stamp_stream(pl.transform@, ov_name(i)))));
    upd(l3, page, with_mark(l3(page), sid, false))
}

/// The store after stamping the first `k` base pages; page `i` uses the
/// fresh ids `ids[2i]` (form) and `ids[2i + 1]` (stream).
pub open spec fn stamp_fold(look: Look, pages: Seq<ObjectId>, contents: Seq<Seq<u8>>, pls: Seq<OverlayPlacement>,
    ids: Seq<ObjectId>, k: int) -> Look
    decreases k,
{
    if k <= 0 {
        look
    } else {
        let i = k - 1;
        stamp_step(stamp_fold(look, pages, contents, pls, ids, i), pages[i], i as nat,
            contents[pick(contents.len() as int, i)], pls[i], ids[2 * i], ids[2 * i + 1])
    }
}

/// The fold uses only the first `2k` fresh ids.
proof fn lemma_stamp_fold_ids(look: Look, pages: Seq<ObjectId>, contents: Seq<Seq<u8>>, pls: Seq<OverlayPlacement>,
    a: Seq<ObjectId>, b: Seq<ObjectId>, k: int)
    requires
        0 <= k,
        2 * k <= a.len(),
        2 * k <= b.len(),
        forall|i: int| 0 <= i < 2 * k ==> a[i] == b[i],
    ensures stamp_fold(look, pages, contents, pls, a, k) == stamp_fold(look, pages, contents, pls, b, k),
    decreases k,
{
    if k > 0 {
        lemma_stamp_fold_ids(look, pages, contents, pls, a, b, k - 1);
        assert(a[2 * (k - 1)] == b[2 * (k - 1)]);
        assert(a[2 * (k - 1) + 1] == b[2 * (k - 1) + 1]);
    }
}

/// Appends the decimal digits of `n`.
fn push_digit_bytes(v: &mut Vec<u8>, n: usize)
    ensures final(v)@ == old(v)@ + digit_bytes(n as nat),
    decreases n,
{
    if n >= 10 {
        push_digit_bytes(v, n / 10);
    }
    let d = (n % 10) as u8 + 0x30u8;
    v.push(d);
    proof {
        if n >= 10 {
            assert(old(v)@ + digit_bytes(n as nat) =~= old(v)@ + digit_bytes((n / 10) as nat) + seq![d]);
        } else {
            assert(old(v)@ + digit_bytes(n as nat) =~= old(v)@.push(d));
        }
    }
}

/// The data of the stream `v` references, copied; empty otherwise.
fn referenced_data(doc: &Document, v: &CosObject) -> (r: Vec<u8>)
    ensures r@ == raw_stream(look_of(*doc), v@),
{
    match v {
        CosObject::Reference(id) => match doc.get_object_ref(*id) {
            Some(CosObject::Stream(s)) => crate::bytes::clone_bytes(s.data.as_slice()),
            _ => Vec::new(),
        },
        _ => Vec::new(),
    }
}

/// A page's stored content (see `raw_page_content`).
fn page_raw_content(doc: &Document, pd: &CosDictionary) -> (r: Vec<u8>)
    ensures r@ == raw_page_content(look_of(*doc), pd@),
{
    match pd.get(&CosName::contents()) {
        Some(CosObject::Reference(id)) => referenced_data(doc, &CosObject::Reference(*id)),
        Some(CosObject::Array(items)) => {
            proof { crate::cos::lemma_view_objs(items@); }
            let ghost a = crate::cos::view_objs(items@);
            let mut out: Vec<u8> = Vec::new();
            let mut i: usize = 0;
            while i < items.len()
                invariant
                    i <= items@.len(),
                    a == crate::cos::view_objs(items@),
                    a.len() == items@.len(),
                    forall|k: int| 0 <= k < items@.len() ==> a[k] == (#[trigger] items@[k])@,
                    out@ == raw_concat(look_of(*doc), a.take(i as int)),
                decreases items.len() - i,
            {
                let part = referenced_data(doc, &items[i]);
                let ghost before = out@;
                out.extend_from_slice(part.as_slice());
                proof {
                    assert(a.take(i + 1).drop_last() =~= a.take(i as int));
                    assert(a.take(i + 1).last() == a[i as int]);
                    assert(out@ =~= before + part@);
                }
                i += 1;
            }
            proof { assert(a.take(a.len() as int) =~= a); }
            out
        }
        Some(CosObject::Stream(s)) => crate::bytes::clone_bytes(s.data.as_slice()),
        _ => Vec::new(),
    }
}

/// Stores `content` as a Form XObject with box `[0 0 w h]` and names it
/// `name` in page `page_id`'s resources (see `with_xobject`); returns the
/// form's id.
fn embed_form(doc: &mut Document, page_id: ObjectId, name: &[u8], content: &[u8], w: &[u8], h: &[u8]) -> (fid: ObjectId)
    ensures
        forall|q: ObjectId| #[trigger] store_find(old(doc).objects@, q) is Some && q.object_number < u32::MAX
            ==> q.object_number < fid.object_number,
        forall|q: ObjectId| #[trigger] store_find(final(doc).objects@, q)
            == upd(upd(look_of(*old(doc)), fid, Some(CosValue::Stream(form_entries(w@, h@, content@.len() as int), content@))),
                page_id, with_xobject(upd(look_of(*old(doc)), fid,
                    Some(CosValue::Stream(form_entries(w@, h@, content@.len() as int), content@)))(page_id), name@, fid))(q),
        final(doc).xref.trailer@ == old(doc).xref.trailer@,
        final(doc).last_allocated == fid.object_number,
        old(doc).last_allocated <= fid.object_number,
        old(doc).last_allocated < u32::MAX ==> old(doc).last_allocated < fid.object_number,
{
    let ghost l0 = look_of(*doc);
    let fid = doc.allocate_object_id();
    let mut fd = CosDictionary::new();
    fd.insert(CosName::type_key(), CosObject::Name(CosName::named("XObject")));
    fd.insert(CosName::subtype(), CosObject::Name(CosName::named("Form")));
    let bbox = vec![
        CosObject::Real(crate::bytes::str_bytes("0")),
        CosObject::Real(crate::bytes::str_bytes("0")),
        CosObject::Real(crate::bytes::clone_bytes(w)),
        CosObject::Real(crate::bytes::clone_bytes(h)),
    ];
    proof {
        crate::cos::lemma_view_objs(bbox@);
        assert(crate::cos::view_objs(bbox@) =~= seq![CosValue::Real(lit("0")), CosValue::Real(lit("0")), CosValue::Real(w@), CosValue::Real(h@)]);
    }
    fd.insert(CosName::named("BBox"), CosObject::Array(bbox));
    let len = content.len() as i64;
    fd.insert(CosName::length(), CosObject::Integer(len));
    let data = crate::bytes::clone_bytes(content);
    doc.insert_object(fid, CosObject::Stream(crate::cos::CosStream::new(fd, data)));
    doc.xref.insert_if_absent(fid, XRefEntry::InUse { offset: 0, generation: 0 });
    let ghost l1 = upd(l0, fid, Some(CosValue::Stream(form_entries(w@, h@, content@.len() as int), content@)));
    assert(look_of(*doc) =~= l1);
    match doc.take_object(page_id) {
        Some(CosObject::Dictionary(mut pd)) => {
            let ghost pv = pd@;
            let mut resources = match pd.get(&CosName::resources()) {
                Some(CosObject::Dictionary(r)) => r.deep_clone(),
                _ => CosDictionary::new(),
            };
            assert(resources@ == page_resources(pv));
            let mut xobjects = match resources.get(&CosName::named("XObject")) {
                Some(CosObject::Dictionary(x)) => x.deep_clone(),
                _ => CosDictionary::new(),
            };
            xobjects.insert(CosName::from_slice(name), CosObject::Reference(fid));
            resources.insert(CosName::named("XObject"), CosObject::Dictionary(xobjects));
            pd.insert(CosName::resources(), CosObject::Dictionary(resources));
            doc.insert_object(page_id, CosObject::Dictionary(pd));
        }
        Some(other) => doc.insert_object(page_id, other),
        None => {}
    }
    fid
}

/// Stamps the pages of `overlay` onto the pages of `base`: base page `i`
/// gets overlay page `min(i, n - 1)`'s stored content (`n` overlay pages)
/// as a Form XObject named `Ov<i>` in its resources, and a new content
/// stream `q`, `placements[i].transform`, `/Ov<i> Do`, `Q` after its own
/// content (see `stamp_fold`); new objects get fresh object numbers. An
/// overlay without pages changes nothing; a base whose page tree cannot be
/// walked is an error.
pub fn overlay_pages(base: &mut Document, overlay: &Document, placements: &[OverlayPlacement]) -> (r: PdfResult<()>)
    requires
        document_pages(old(base)) matches Some(p) ==> placements@.len() == p.len(),
    ensures
        final(base).xref.trailer@ == old(base).xref.trailer@,
        match document_pages(overlay) {
            Some(op) if op.len() > 0 => match document_pages(old(base)) {
                Some(p) => r is Ok && exists|ids: Seq<ObjectId>| #[trigger] fresh_for(*old(base), ids) && ids.len() == 2 * p.len()
                    && stores(*final(base), stamp_fold(look_of(*old(base)), p, overlay_contents(*overlay, op),
                        placements@, ids, p.len() as int)),
                None => r is Err && final(base).objects@ == old(base).objects@,
            },
            _ => r is Ok && final(base).objects@ == old(base).objects@,
        },
{
    let op = overlay.page_object_ids();
    if op.len() == 0 {
        return Ok(());
    }
    match base.pages() {
        Err(e) => return Err(e),
        Ok(_) => {}
    }
    let pages = base.page_object_ids();
    let mut contents: Vec<Vec<u8>> = Vec::new();
    let mut j: usize = 0;
    while j < op.len()
        invariant
            j <= op@.len(),
            contents@.len() == j,
            forall|k: int| 0 <= k < j ==> (#[trigger] contents@[k])@ == overlay_content(*overlay, op@[k]),
        decreases op.len() - j,
    {
        let c = match overlay.get_object_ref(op[j]) {
            Some(CosObject::Dictionary(pd)) => page_raw_content(overlay, pd),
            _ => Vec::new(),
        };
        contents.push(c);
        j += 1;
    }
    let ghost cs = overlay_contents(*overlay, op@);
    assert(cs.len() == contents@.len());
    let n = op.len();
    let ghost d0 = *base;
    let ghost l0 = look_of(*base);
    let ghost p = pages@;
    let ghost mut ids: Seq<ObjectId> = Seq::empty();
    let mut i: usize = 0;
    while i < pages.len()
        invariant
            i <= p.len(),
            pages@ == p,
            placements@.len() == p.len(),
            n == op@.len(),
            n > 0,
            cs == overlay_contents(*overlay, op@),
            contents@.len() == n,
            forall|k: int| 0 <= k < n ==> (#[trigger] contents@[k])@ == cs[k],
            l0 == look_of(d0),
            base.xref.trailer@ == d0.xref.trailer@,
            ids.len() == 2 * i,
            fresh_for(d0, ids),
            ids.len() > 0 ==> ids.last().object_number == base.last_allocated,
            look_of(*base) == stamp_fold(l0, p, cs, placements@, ids, i as int),
            forall|q: ObjectId| #[trigger] store_find(d0.objects@, q) is Some ==> store_find(base.objects@, q) is Some,
        decreases pages.len() - i,
    {
        let ghost before = *base;
        let idx = if i < n - 1 { i } else { n - 1 };
        let page = pages[i];
        let mut name = crate::bytes::str_bytes("Ov");
        push_digit_bytes(&mut name, i);
        let pl = &placements[i];
        let fid = embed_form(base, page, name.as_slice(), contents[idx].as_slice(), pl.width.as_slice(), pl.height.as_slice());
        let ghost mid = *base;
        let mut s = crate::bytes::str_bytes("q\n");
        let ghost s0 = s@;
        s.extend_from_slice(pl.transform.as_slice());
        let ghost s1 = s@;
        let slash = crate::bytes::str_bytes("/");
        s.extend_from_slice(slash.as_slice());
        let ghost s2 = s@;
        s.extend_from_slice(name.as_slice());
        let ghost s3 = s@;
        let tail = crate::bytes::str_bytes(" Do\nQ\n");
        s.extend_from_slice(tail.as_slice());
        proof {
            assert(s1 =~= s0 + pl.transform@);
            assert(s2 =~= s1 + slash@);
            assert(s3 =~= s2 + name@);
            assert(s@ =~= s3 + tail@);
            assert(s@ =~= stamp_stream(pl.transform@, ov_name(i as nat)));
        }
        let sid = mark_page(base, page, s, false);
        proof {
            lemma_rising_push(ids, before.last_allocated, fid);
            lemma_rising_push(ids.push(fid), mid.last_allocated, sid);
            let ids2 = ids.push(fid).push(sid);
            lemma_stamp_fold_ids(l0, p, cs, placements@, ids, ids2, i as int);
            assert(ids2[2 * i] == fid);
            assert(ids2[2 * i + 1] == sid);
            assert(pick(cs.len() as int, i as int) == idx);
            assert(contents@[idx as int]@ == cs[idx as int]);
            assert(look_of(*base) =~= stamp_fold(l0, p, cs, placements@, ids2, i + 1));
            assert forall|k: int, q: ObjectId| 0 <= k < ids2.len() && #[trigger] store_find(d0.objects@, q) is Some
                && q.object_number < u32::MAX implies q.object_number < (#[trigger] ids2[k]).object_number by {
                assert(store_find(before.objects@, q) is Some);
                if k < ids.len() {
                    assert(ids2[k] == ids[k]);
                } else if k == ids.len() {
                    assert(ids2[k] == fid);
                } else {
                    assert(ids2[k] == sid);
                    assert(store_find(mid.objects@, q) is Some);
                }
            }
            assert forall|q: ObjectId| #[trigger] store_find(d0.objects@, q) is Some implies store_find(base.objects@, q) is Some by {
                assert(store_find(before.objects@, q) is Some);
                assert(store_find(mid.objects@, q) is Some);
            }
            ids = ids2;
        }
        i += 1;
    }
    proof {
        assert(stores(*base, stamp_fold(l0, p, cs, placements@, ids, p.len() as int)));
    }
    Ok(())
}

} // verus!

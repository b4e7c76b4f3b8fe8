//! The structural steps of flattening a form: taking widgets off their
//! pages, taking fields out of the form, and dropping an empty form.

use vstd::prelude::*;
use crate::bytes::lit;
use crate::cos::{CosDictionary, CosName, CosObject, CosValue, ObjectId, dict_insert, dict_lookup, find_key, view_obj, view_objs};
use crate::document::{Document, PdfResult, store_find};
use crate::forms::field::{put_entry, with_entry};
use crate::parser::xref::XRefEntry;

verus! {

/// `d` without the entry `k`.
pub open spec fn dict_remove(d: Seq<(Seq<u8>, CosValue)>, k: Seq<u8>) -> Seq<(Seq<u8>, CosValue)> {
    if find_key(d, k) >= 0 { d.remove(find_key(d, k)) } else { d }
}

/// The reference value of `id`.
pub open spec fn ref_of(id: ObjectId) -> CosValue {
    CosValue::Ref(id.object_number, id.generation)
}

/// `a` without the items for which `drop` holds.
pub open spec fn kept(a: Seq<CosValue>, drop: spec_fn(CosValue) -> bool) -> Seq<CosValue>
    decreases a.len(),
{
    if a.len() == 0 {
        Seq::empty()
    } else {
        kept(a.drop_last(), drop) + if drop(a.last()) { Seq::empty() } else { seq![a.last()] }
    }
}

/// An array entry of a dictionary with the items `drop` selects removed;
/// the entry itself removed when nothing is left. Anything else unchanged.
pub open spec fn pruned(v: Option<CosValue>, key: Seq<u8>, drop: spec_fn(CosValue) -> bool) -> Option<CosValue> {
    match v {
        Some(CosValue::Dict(d)) => match dict_lookup(d, key) {
            Some(CosValue::Array(a)) => {
                let na = kept(a, drop);
                Some(CosValue::Dict(if na.len() == 0 { dict_remove(d, key) } else { dict_insert(d, key, CosValue::Array(na)) }))
            },
            _ => v,
        },
        _ => v,
    }
}

/// The items of `items` for which `drop` does not hold, copied.
fn keep_items(items: &Vec<CosObject>, drop_id: Option<ObjectId>, ids: &[ObjectId], Ghost(drop): Ghost<spec_fn(CosValue) -> bool>) -> (r: Vec<CosObject>)
    requires
        forall|v: CosValue| #[trigger] drop(v) == match v {
            CosValue::Ref(n, g) => {
                let q = ObjectId { object_number: n, generation: g };
                Some(q) == drop_id || ids@.contains(q)
            },
            _ => false,
        },
    ensures view_objs(r@) == kept(view_objs(items@), drop),
{
    let ghost a = view_objs(items@);
    proof { crate::cos::lemma_view_objs(items@); }
    let mut out: Vec<CosObject> = Vec::new();
    let mut i: usize = 0;
    while i < items.len()
        invariant
            i <= items@.len(),
            a == view_objs(items@),
            a.len() == items@.len(),
            forall|q: int| 0 <= q < items@.len() ==> a[q] == view_obj(#[trigger] items@[q]),
            view_objs(out@) == kept(a.take(i as int), drop),
            forall|v: CosValue| #[trigger] drop(v) == match v {
                CosValue::Ref(n, g) => {
                    let q = ObjectId { object_number: n, generation: g };
                    Some(q) == drop_id || ids@.contains(q)
                },
                _ => false,
            },
        decreases items.len() - i,
    {
        proof { assert(a.take(i + 1).drop_last() =~= a.take(i as int)); }
        let hit = match &items[i] {
            CosObject::Reference(id) => {
                let mut found = match drop_id {
                    Some(d) => d.same(id),
                    None => false,
                };
                let mut j: usize = 0;
                while j < ids.len()
                    invariant
                        j <= ids@.len(),
                        found == (Some(*id) == drop_id || exists|k: int| 0 <= k < j && ids@[k] == *id),
                    decreases ids.len() - j,
                {
                    if ids[j].same(id) {
                        found = true;
                    }
                    j += 1;
                }
                proof {
                    if exists|k: int| 0 <= k < ids@.len() && ids@[k] == *id {
                        let k = choose|k: int| 0 <= k < ids@.len() && ids@[k] == *id;
                        assert(ids@.contains(*id));
                    }
                    assert(drop(a[i as int]) == found);
                }
                found
            }
            _ => false,
        };
        if !hit {
            let ghost before = out@;
            let c = items[i].deep_clone();
            out.push(c);
            proof {
                assert(out@.drop_last() =~= before);
                assert(view_objs(out@) =~= view_objs(before).push(a[i as int]));
            }
        }
        i += 1;
    }
    proof { assert(a.take(items@.len() as int) =~= a); }
    out
}

/// Removes the array items `drop` selects from entry `key` of the stored
/// dictionary `id` (see `pruned`).
fn prune_entry(doc: &mut Document, id: ObjectId, key: &str, drop_id: Option<ObjectId>, ids: &[ObjectId],
    Ghost(drop): Ghost<spec_fn(CosValue) -> bool>)
    requires
        forall|v: CosValue| #[trigger] drop(v) == match v {
            CosValue::Ref(n, g) => {
                let q = ObjectId { object_number: n, generation: g };
                Some(q) == drop_id || ids@.contains(q)
            },
            _ => false,
        },
    ensures
        forall|q: ObjectId| #[trigger] store_find(final(doc).objects@, q)
            == if q == id { pruned(store_find(old(doc).objects@, q), lit(key), drop) } else { store_find(old(doc).objects@, q) },
        final(doc).xref.trailer@ == old(doc).xref.trailer@,
        final(doc).last_allocated == old(doc).last_allocated,
{
    match doc.take_object(id) {
        Some(CosObject::Dictionary(mut d)) => {
            let k = CosName::named(key);
            let na = match d.get(&k) {
                Some(CosObject::Array(items)) => Some(keep_items(items, drop_id, ids, Ghost(drop))),
                _ => None,
            };
            match na {
                Some(v) => {
                    if v.len() == 0 {
                        d.remove(&k);
                    } else {
                        d.insert(k, CosObject::Array(v));
                    }
                }
                None => {}
            }
            doc.insert_object(id, CosObject::Dictionary(d));
        }
        Some(other) => {
            doc.insert_object(id, other);
        }
        None => {}
    }
}

/// Takes the widget `widget_id` off the page `page_id`: its reference is
/// removed from the page's `/Annots`, and `/Annots` removed when nothing
/// is left.
pub fn remove_widget_from_page(doc: &mut Document, page_id: ObjectId, widget_id: ObjectId)
    ensures
        forall|q: ObjectId| #[trigger] store_find(final(doc).objects@, q)
            == if q == page_id {
                pruned(store_find(old(doc).objects@, q), lit("Annots"), |v: CosValue| v == ref_of(widget_id))
            } else {
                store_find(old(doc).objects@, q)
            },
        final(doc).xref.trailer@ == old(doc).xref.trailer@,
        final(doc).last_allocated == old(doc).last_allocated,
{
    let none: Vec<ObjectId> = Vec::new();
    let ghost drop = |v: CosValue| v == ref_of(widget_id);
    proof {
        assert forall|v: CosValue| #[trigger] drop(v) == match v {
            CosValue::Ref(n, g) => {
                let q = ObjectId { object_number: n, generation: g };
                Some(q) == Some(widget_id) || none@.contains(q)
            },
            _ => false,
        } by {
            match v {
                CosValue::Ref(n, g) => {
                    assert(!none@.contains(ObjectId { object_number: n, generation: g }));
                }
                _ => {}
            }
        }
    }
    prune_entry(doc, page_id, "Annots", Some(widget_id), none.as_slice(), Ghost(drop));
}

/// The form dictionary's id: the catalog's `/AcroForm` reference.
pub open spec fn acro_ref(doc: Document) -> Option<ObjectId> {
    match doc.catalog_dict() {
        Some(c) => match dict_lookup(c, lit("AcroForm")) {
            Some(CosValue::Ref(n, g)) => Some(ObjectId { object_number: n, generation: g }),
            _ => None,
        },
        None => None,
    }
}

fn acro_ref_exec(doc: &Document) -> (r: Option<ObjectId>)
    ensures r == acro_ref(*doc),
{
    match doc.catalog() {
        Some(c) => match c.get(&CosName::named("AcroForm")) {
            Some(CosObject::Reference(id)) => Some(*id),
            _ => None,
        },
        None => None,
    }
}

/// Takes the fields `field_ids` out of the form: their references are
/// removed from the form dictionary's `/Fields`, and `/Fields` removed when
/// nothing is left.
pub fn remove_fields_from_acroform(doc: &mut Document, field_ids: &[ObjectId])
    ensures
        forall|q: ObjectId| #[trigger] store_find(final(doc).objects@, q)
            == if Some(q) == acro_ref(*old(doc)) {
                pruned(store_find(old(doc).objects@, q), lit("Fields"),
                    |v: CosValue| exists|k: int| 0 <= k < field_ids@.len() && v == ref_of(#[trigger] field_ids@[k]))
            } else {
                store_find(old(doc).objects@, q)
            },
        final(doc).xref.trailer@ == old(doc).xref.trailer@,
{
    let ghost drop = |v: CosValue| exists|k: int| 0 <= k < field_ids@.len() && v == ref_of(#[trigger] field_ids@[k]);
    proof {
        assert forall|v: CosValue| #[trigger] drop(v) == match v {
            CosValue::Ref(n, g) => {
                let q = ObjectId { object_number: n, generation: g };
                Some(q) == None::<ObjectId> || field_ids@.contains(q)
            },
            _ => false,
        } by {
            match v {
                CosValue::Ref(n, g) => {
                    let q = ObjectId { object_number: n, generation: g };
                    if field_ids@.contains(q) {
                        let k = choose|k: int| 0 <= k < field_ids@.len() && field_ids@[k] == q;
                        assert(v == ref_of(field_ids@[k]));
                    }
                }
                _ => {}
            }
        }
    }
    match acro_ref_exec(doc) {
        Some(acro_id) => prune_entry(doc, acro_id, "Fields", None, field_ids, Ghost(drop)),
        None => {}
    }
}

/// The form has no fields left: its dictionary has no `/Fields`, or an
/// empty array there.
pub open spec fn form_is_empty(doc: Document) -> bool {
    match acro_ref(doc) {
        Some(id) => match store_find(doc.objects@, id) {
            Some(CosValue::Dict(a)) => match dict_lookup(a, lit("Fields")) {
                None => true,
                Some(CosValue::Array(f)) => f.len() == 0,
                _ => false,
            },
            _ => false,
        },
        None => false,
    }
}

/// Removes `/AcroForm` from the catalog when the form has no fields left
/// (see `form_is_empty`).
pub fn cleanup_acroform(doc: &mut Document)
    ensures
        final(doc).xref.trailer@ == old(doc).xref.trailer@,
        forall|q: ObjectId| #[trigger] store_find(final(doc).objects@, q)
            == if form_is_empty(*old(doc)) && Some(q) == old(doc).catalog_id_spec() {
                match store_find(old(doc).objects@, q) {
                    Some(CosValue::Dict(c)) => Some(CosValue::Dict(dict_remove(c, lit("AcroForm")))),
                    other => other,
                }
            } else {
                store_find(old(doc).objects@, q)
            },
{
    let catalog_id = match doc.catalog_id() {
        Some(id) => id,
        None => return,
    };
    let should_remove = match acro_ref_exec(doc) {
        Some(af_id) => match doc.get_object_ref(af_id) {
            Some(CosObject::Dictionary(acro)) => match acro.get(&CosName::named("Fields")) {
                None => true,
                Some(CosObject::Array(arr)) => {
                    proof { crate::cos::lemma_view_objs(arr@); }
                    arr.len() == 0
                }
                _ => false,
            },
            _ => false,
        },
        None => false,
    };
    if should_remove {
        match doc.take_object(catalog_id) {
            Some(CosObject::Dictionary(mut c)) => {
                c.remove(&CosName::named("AcroForm"));
                doc.insert_object(catalog_id, CosObject::Dictionary(c));
            }
            Some(other) => {
                doc.insert_object(catalog_id, other);
            }
            None => {}
        }
    }
}

/// The references in the form's `/Fields` array, in order: the fields
/// flattening all fields works on.
pub open spec fn form_field_refs(doc: Document) -> Seq<ObjectId> {
    match acro_ref(doc) {
        Some(id) => match store_find(doc.objects@, id) {
            Some(CosValue::Dict(a)) => match dict_lookup(a, lit("Fields")) {
                Some(CosValue::Array(f)) => refs_in(f),
                _ => Seq::empty(),
            },
            _ => Seq::empty(),
        },
        None => Seq::empty(),
    }
}

pub open spec fn refs_in(a: Seq<CosValue>) -> Seq<ObjectId>
    decreases a.len(),
{
    if a.len() == 0 {
        Seq::empty()
    } else {
        refs_in(a.drop_last()) + match a.last() {
            CosValue::Ref(n, g) => seq![ObjectId { object_number: n, generation: g }],
            _ => Seq::empty(),
        }
    }
}

/// The ids of the references in the form's `/Fields` array (see
/// `form_field_refs`).
pub fn form_field_ids(doc: &Document) -> (r: Vec<ObjectId>)
    ensures r@ == form_field_refs(*doc),
{
    let mut ids: Vec<ObjectId> = Vec::new();
    let af_id = match acro_ref_exec(doc) {
        Some(id) => id,
        None => return ids,
    };
    match doc.get_object_ref(af_id) {
        Some(CosObject::Dictionary(acro)) => match acro.get(&CosName::named("Fields")) {
            Some(CosObject::Array(fields)) => {
                let ghost a = view_objs(fields@);
                proof { crate::cos::lemma_view_objs(fields@); }
                let mut i: usize = 0;
                while i < fields.len()
                    invariant
                        i <= fields@.len(),
                        a == view_objs(fields@),
                        a.len() == fields@.len(),
                        forall|q: int| 0 <= q < fields@.len() ==> a[q] == view_obj(#[trigger] fields@[q]),
                        ids@ == refs_in(a.take(i as int)),
                    decreases fields.len() - i,
                {
                    proof { assert(a.take(i + 1).drop_last() =~= a.take(i as int)); }
                    match &fields[i] {
                        CosObject::Reference(id) => {
                            ids.push(*id);
                        }
                        _ => {}
                    }
                    proof { assert(ids@ =~= refs_in(a.take(i + 1))); }
                    i += 1;
                }
                proof { assert(a.take(fields@.len() as int) =~= a); }
                ids
            }
            _ => ids,
        },
        _ => ids,
    }
}

/// A store, seen as the lookup it answers.
pub type Look = spec_fn(ObjectId) -> Option<CosValue>;

/// The store of `d` as a lookup.
pub open spec fn look_of(d: Document) -> Look {
    |q: ObjectId| store_find(d.objects@, q)
}

/// `look` with `id` now holding `v`.
pub open spec fn upd(look: Look, id: ObjectId, v: Option<CosValue>) -> Look {
    |q: ObjectId| if q == id { v } else { look(q) }
}

/// The data of the stream `id`, when `id` holds a stream.
pub open spec fn stream_bytes(look: Look, id: ObjectId) -> Option<Seq<u8>> {
    match look(id) {
        Some(CosValue::Stream(_, data)) => Some(data),
        _ => None,
    }
}

/// The id a reference value names.
pub open spec fn ref_id(v: CosValue) -> Option<ObjectId> {
    match v {
        CosValue::Ref(n, g) => Some(ObjectId { object_number: n, generation: g }),
        _ => None,
    }
}

/// The first appearance state from entry `k` of `nd` whose name is not
/// `Off` and whose value references a stored stream: that stream's data.
pub open spec fn first_on_state(look: Look, nd: Seq<(Seq<u8>, CosValue)>, k: int) -> Option<Seq<u8>>
    decreases nd.len() - k,
{
    if k < 0 || k >= nd.len() {
        None
    } else if nd[k].0 != lit("Off") && ref_id(nd[k].1) is Some && stream_bytes(look, ref_id(nd[k].1)->Some_0) is Some {
        stream_bytes(look, ref_id(nd[k].1)->Some_0)
    } else {
        first_on_state(look, nd, k + 1)
    }
}

/// The content of a widget's normal appearance: the stream `/AP` `/N`
/// references, or for a set of states the first one other than `Off`.
pub open spec fn appearance_of(look: Look, fd: Seq<(Seq<u8>, CosValue)>) -> Option<Seq<u8>> {
    match dict_lookup(fd, lit("AP")) {
        Some(CosValue::Dict(ap)) => match dict_lookup(ap, lit("N")) {
            Some(CosValue::Ref(n, g)) => stream_bytes(look, ObjectId { object_number: n, generation: g }),
            Some(CosValue::Dict(nd)) => first_on_state(look, nd, 0),
            _ => None,
        },
        _ => None,
    }
}

/// The appearance `c` placed by the transform line `pl`, inside `q`/`Q`.
pub open spec fn wrapped(pl: Seq<u8>, c: Seq<u8>) -> Seq<u8> {
    lit("q\n") + pl + c + lit("\nQ\n")
}

/// A stream with `w` appended to its data and `/Length` updated.
pub open spec fn appended(v: Option<CosValue>, w: Seq<u8>) -> Option<CosValue> {
    match v {
        Some(CosValue::Stream(d, data)) => Some(CosValue::Stream(
            dict_insert(d, lit("Length"), CosValue::Integer(((data + w).len() as i64) as int)), data + w)),
        other => other,
    }
}

/// Where content for page `page` goes: `Some(Some(id))` for the stream its
/// `/Contents` references (the last one of an array), `Some(None)` for a
/// new stream, `None` when the array's last item is no reference.
pub open spec fn content_target(look: Look, page: ObjectId) -> Option<Option<ObjectId>> {
    match look(page) {
        Some(CosValue::Dict(pd)) => match dict_lookup(pd, lit("Contents")) {
            Some(CosValue::Ref(n, g)) => Some(Some(ObjectId { object_number: n, generation: g })),
            Some(CosValue::Array(a)) => if a.len() > 0 && ref_id(a.last()) is Some { Some(ref_id(a.last())) } else { None },
            _ => Some(None),
        },
        _ => Some(None),
    }
}

/// The page content after appending `w` to page `page`: to its content
/// stream, or to a new stream `fresh` that its `/Contents` then names.
pub open spec fn merged(look: Look, page: ObjectId, w: Seq<u8>, fresh: ObjectId) -> Look {
    match content_target(look, page) {
        Some(Some(cid)) => upd(look, cid, appended(look(cid), w)),
        Some(None) => {
            let l1 = upd(look, fresh, Some(CosValue::Stream(
                dict_insert(Seq::empty(), lit("Length"), CosValue::Integer((w.len() as i64) as int)), w)));
            upd(l1, page, with_entry(l1(page), lit("Contents"), ref_of(fresh)))
        },
        None => look,
    }
}

/// The state while flattening: the store, the fields taken out, and how
/// many fresh ids were used.
pub type FlatState = (Look, Seq<ObjectId>, int);

/// The page a field's widget sits on (`/P`).
pub open spec fn widget_page(fd: Seq<(Seq<u8>, CosValue)>) -> Option<ObjectId> {
    match dict_lookup(fd, lit("P")) {
        Some(v) => ref_id(v),
        None => None,
    }
}

/// The appearance field `fd` burns in with placement `pl`, when there is
/// one: page, non-empty appearance and placement all present.
pub open spec fn burn_in(look: Look, fd: Seq<(Seq<u8>, CosValue)>, pl: Option<Seq<u8>>) -> Option<(ObjectId, Seq<u8>)> {
    match (widget_page(fd), appearance_of(look, fd), pl) {
        (Some(page), Some(c), Some(p)) => if c.len() > 0 { Some((page, wrapped(p, c))) } else { None },
        _ => None,
    }
}

/// Flattening field `fid` with placement `pl`: its appearance merged into
/// its page's content, its widget taken off the page's `/Annots`, and the
/// field noted for removal from the form. A field that is not a stored
/// dictionary is passed over.
pub open spec fn flat_step(st: FlatState, fid: ObjectId, pl: Option<Seq<u8>>, ids: Seq<ObjectId>) -> FlatState {
    match (st.0)(fid) {
        Some(CosValue::Dict(fd)) => {
            let (l1, used) = match burn_in(st.0, fd, pl) {
                Some((page, w)) => (merged(st.0, page, w, ids[st.2]),
                    if content_target(st.0, page) == Some(None::<ObjectId>) { st.2 + 1 } else { st.2 }),
                None => (st.0, st.2),
            };
            let l2 = match widget_page(fd) {
                Some(page) => upd(l1, page, pruned(l1(page), lit("Annots"), |v: CosValue| v == ref_of(fid))),
                None => l1,
            };
            (l2, st.1.push(fid), used)
        },
        _ => st,
    }
}

/// The state after the first `k` fields.
pub open spec fn flat_fold(st: FlatState, fids: Seq<ObjectId>, pls: Seq<Option<Seq<u8>>>, ids: Seq<ObjectId>, k: int) -> FlatState
    decreases k,
{
    if k <= 0 { st } else { flat_step(flat_fold(st, fids, pls, ids, k - 1), fids[k - 1], pls[k - 1], ids) }
}

/// The form dictionary's id in a store whose catalog the trailer names.
pub open spec fn acro_in(trailer: Seq<(Seq<u8>, CosValue)>, look: Look) -> Option<ObjectId> {
    match dict_lookup(trailer, lit("Root")) {
        Some(CosValue::Ref(n, g)) => match look(ObjectId { object_number: n, generation: g }) {
            Some(CosValue::Dict(c)) => match dict_lookup(c, lit("AcroForm")) {
                Some(v) => ref_id(v),
                None => None,
            },
            _ => None,
        },
        _ => None,
    }
}

/// The form has no field left (see `form_is_empty`).
pub open spec fn form_empty_in(trailer: Seq<(Seq<u8>, CosValue)>, look: Look) -> bool {
    match acro_in(trailer, look) {
        Some(id) => match look(id) {
            Some(CosValue::Dict(a)) => match dict_lookup(a, lit("Fields")) {
                None => true,
                Some(CosValue::Array(f)) => f.len() == 0,
                _ => false,
            },
            _ => false,
        },
        None => false,
    }
}

/// The store after flattening: the fields folded in, the fields taken out
/// of the form's `/Fields`, and `/AcroForm` dropped from the catalog when
/// no field is left.
pub open spec fn flattened(trailer: Seq<(Seq<u8>, CosValue)>, look: Look, fids: Seq<ObjectId>,
    pls: Seq<Option<Seq<u8>>>, ids: Seq<ObjectId>) -> Look
{
    let st = flat_fold((look, Seq::empty(), 0), fids, pls, ids, fids.len() as int);
    let removed = st.1;
    let l3 = if removed.len() > 0 {
        match acro_in(trailer, st.0) {
            Some(a) => upd(st.0, a, pruned((st.0)(a), lit("Fields"),
                |v: CosValue| exists|k: int| 0 <= k < removed.len() && v == ref_of(#[trigger] removed[k]))),
            None => st.0,
        }
    } else {
        st.0
    };
    match dict_lookup(trailer, lit("Root")) {
        Some(CosValue::Ref(n, g)) => if form_empty_in(trailer, l3) {
            let c = ObjectId { object_number: n, generation: g };
            upd(l3, c, match l3(c) {
                Some(CosValue::Dict(cd)) => Some(CosValue::Dict(dict_remove(cd, lit("AcroForm")))),
                other => other,
            })
        } else {
            l3
        },
        _ => l3,
    }
}

/// Ids handed out one after another: each number above the ones before
/// (the numbers stop rising only once they reach `u32::MAX`), so no two
/// are the same while the numbers last.
pub open spec fn rising(ids: Seq<ObjectId>) -> bool {
    forall|a: int, b: int| 0 <= a < b < ids.len() && #[trigger] ids[a].object_number < u32::MAX
        ==> ids[a].object_number < #[trigger] ids[b].object_number
}

/// New ids for `d`: above every object number stored in `d` (below the
/// largest one), and rising one after another (see `rising`).
pub open spec fn fresh_for(d: Document, ids: Seq<ObjectId>) -> bool {
    &&& forall|k: int, q: ObjectId| 0 <= k < ids.len() && #[trigger] store_find(d.objects@, q) is Some && q.object_number < u32::MAX
        ==> q.object_number < (#[trigger] ids[k]).object_number
    &&& rising(ids)
}

/// An id handed out after the last of `ids` (`last` the number handed out
/// last) keeps them rising.
pub proof fn lemma_rising_push(ids: Seq<ObjectId>, last: u32, r: ObjectId)
    requires
        rising(ids),
        ids.len() > 0 ==> ids.last().object_number == last,
        last <= r.object_number,
        last < u32::MAX ==> last < r.object_number,
    ensures rising(ids.push(r)),
{
    let s = ids.push(r);
    assert forall|a: int, b: int| 0 <= a < b < s.len() && #[trigger] s[a].object_number < u32::MAX
        implies s[a].object_number < #[trigger] s[b].object_number by {
        if b < ids.len() {
            assert(s[a] == ids[a] && s[b] == ids[b]);
        } else {
            assert(s[a] == ids[a]);
            if a < ids.len() - 1 {
                assert(ids[a].object_number < ids[ids.len() - 1].object_number);
            }
        }
    }
}

/// Merging into an existing content stream uses no fresh id.
proof fn lemma_merged_fresh(l: Look, p: ObjectId, w: Seq<u8>, f1: ObjectId, f2: ObjectId)
    requires content_target(l, p) != Some(None::<ObjectId>),
    ensures merged(l, p, w, f1) == merged(l, p, w, f2),
{
}

/// A fold over a longer list of fresh ids is the same while it uses only
/// the first ones.
proof fn lemma_fold_ids(st: FlatState, fids: Seq<ObjectId>, pls: Seq<Option<Seq<u8>>>, ids: Seq<ObjectId>,
    more: Seq<ObjectId>, k: int)
    requires
        0 <= k <= fids.len(),
        k <= pls.len(),
        st.2 >= 0,
        flat_fold(st, fids, pls, ids, k).2 <= ids.len(),
    ensures
        flat_fold(st, fids, pls, ids + more, k) == flat_fold(st, fids, pls, ids, k),
        flat_fold(st, fids, pls, ids, k).2 >= st.2,
    decreases k,
{
    if k > 0 {
        let prev = flat_fold(st, fids, pls, ids, k - 1);
        let f = fids[k - 1];
        let pl = pls[k - 1];
        assert(flat_step(prev, f, pl, ids).2 >= prev.2);
        lemma_fold_ids(st, fids, pls, ids, more, k - 1);
        assert(flat_fold(st, fids, pls, ids + more, k - 1) == prev);
        match (prev.0)(f) {
            Some(CosValue::Dict(fd)) => {
                match burn_in(prev.0, fd, pl) {
                    Some((page, w)) => {
                        if prev.2 < ids.len() {
                            assert((ids + more)[prev.2] == ids[prev.2]);
                        } else {
                            assert(content_target(prev.0, page) != Some(None::<ObjectId>));
                            lemma_merged_fresh(prev.0, page, w, ids[prev.2], (ids + more)[prev.2]);
                        }
                    }
                    None => {}
                }
            }
            _ => {}
        }
    }
}

/// The stream data of `id`, copied.
fn stream_data(doc: &Document, id: ObjectId) -> (r: Option<Vec<u8>>)
    ensures
        match stream_bytes(look_of(*doc), id) {
            Some(b) => r is Some && r->Some_0@ == b,
            None => r is None,
        },
{
    match doc.get_object_ref(id) {
        Some(CosObject::Stream(s)) => Some(crate::bytes::clone_bytes(s.data.as_slice())),
        _ => None,
    }
}

/// The content of a widget's normal appearance (see `appearance_of`).
fn appearance_content(doc: &Document, field_dict: &CosDictionary) -> (r: Option<Vec<u8>>)
    ensures
        match appearance_of(look_of(*doc), field_dict@) {
            Some(b) => r is Some && r->Some_0@ == b,
            None => r is None,
        },
{
    let ap = match field_dict.get(&CosName::named("AP")) {
        Some(CosObject::Dictionary(d)) => d,
        _ => return None,
    };
    let n = match ap.get(&CosName::named("N")) {
        Some(v) => v,
        None => return None,
    };
    match n {
        CosObject::Reference(form_ref) => return stream_data(doc, *form_ref),
        CosObject::Dictionary(nd) => {
            let es = nd.as_slice();
            let ghost ndv = nd@;
            let mut i: usize = 0;
            while i < es.len()
                invariant
                    i <= es@.len(),
                    crate::cos::view_entries(es@) == ndv,
                    es@.len() == ndv.len(),
                    first_on_state(look_of(*doc), ndv, i as int) == first_on_state(look_of(*doc), ndv, 0),
                    appearance_of(look_of(*doc), field_dict@) == first_on_state(look_of(*doc), ndv, 0),
                decreases es.len() - i,
            {
                let (key, val) = &es[i];
                proof {
                    crate::cos::lemma_view_entries(es@);
                    assert(ndv[i as int].0 == key.bytes@);
                    assert(ndv[i as int].1 == val@);
                }
                if !crate::bytes::eq_str(key.as_bytes(), "Off") {
                    if let CosObject::Reference(r) = val {
                        let c = stream_data(doc, *r);
                        if c.is_some() {
                            proof {
                                assert(ref_id(ndv[i as int].1) == Some(*r));
                                assert(ndv[i as int].0 != lit("Off"));
                                assert(first_on_state(look_of(*doc), ndv, i as int) == stream_bytes(look_of(*doc), *r));
                                assert(first_on_state(look_of(*doc), ndv, 0) == stream_bytes(look_of(*doc), *r));
                                assert(appearance_of(look_of(*doc), field_dict@) == first_on_state(look_of(*doc), ndv, 0));
                            }
                            return c;
                        }
                    }
                }
                i += 1;
            }
            None
        }
        _ => None,
    }
}

/// Appends `w` to the content of page `page_id` (see `merged`); returns
/// whether a new stream was made.
fn merge_into_page_content(doc: &mut Document, page_id: ObjectId, w: Vec<u8>, Ghost(ids): Ghost<Seq<ObjectId>>)
    -> (made: Ghost<Option<ObjectId>>)
    ensures
        final(doc).xref.trailer@ == old(doc).xref.trailer@,
        match made@ {
            Some(fresh) => {
                &&& content_target(look_of(*old(doc)), page_id) == Some(None::<ObjectId>)
                &&& fresh.generation == 0
                &&& final(doc).last_allocated == fresh.object_number
                &&& old(doc).last_allocated <= fresh.object_number
                &&& (old(doc).last_allocated < u32::MAX ==> old(doc).last_allocated < fresh.object_number)
                &&& forall|q: ObjectId| #[trigger] store_find(old(doc).objects@, q) is Some && q.object_number < u32::MAX
                    ==> q.object_number < fresh.object_number
                &&& forall|q: ObjectId| #[trigger] store_find(final(doc).objects@, q) == merged(look_of(*old(doc)), page_id, w@, fresh)(q)
            },
            None => {
                &&& content_target(look_of(*old(doc)), page_id) != Some(None::<ObjectId>)
                &&& final(doc).last_allocated == old(doc).last_allocated
                &&& forall|q: ObjectId| #[trigger] store_find(final(doc).objects@, q)
                    == merged(look_of(*old(doc)), page_id, w@, ObjectId { object_number: 0, generation: 0 })(q)
            },
        },
{
    let ghost l0 = look_of(*doc);
    let existing: Option<CosObject> = match doc.get_object_ref(page_id) {
        Some(CosObject::Dictionary(d)) => match d.get(&CosName::contents()) {
            Some(v) => Some(v.deep_clone()),
            None => None,
        },
        _ => None,
    };
    let target: Option<ObjectId> = match existing {
        Some(CosObject::Reference(id)) => Some(id),
        Some(CosObject::Array(refs)) => {
            proof { crate::cos::lemma_view_objs(refs@); }
            if refs.len() > 0 {
                match &refs[refs.len() - 1] {
                    CosObject::Reference(id) => Some(*id),
                    _ => return Ghost(None),
                }
            } else {
                return Ghost(None);
            }
        }
        _ => None,
    };
    proof {
        match target {
            Some(cid) => assert(content_target(l0, page_id) == Some(Some(cid))),
            None => assert(content_target(l0, page_id) == Some(None::<ObjectId>)),
        }
    }
    match target {
        Some(content_id) => {
            let ghost before = doc.objects@;
            match doc.take_object(content_id) {
                Some(CosObject::Stream(mut stream)) => {
                    let ghost d0 = stream.data@;
                    let ghost dict0 = stream.dictionary@;
                    let mut k: usize = 0;
                    while k < w.len()
                        invariant k <= w@.len(), stream.data@ == d0 + w@.take(k as int), stream.dictionary@ == dict0,
                        decreases w.len() - k,
                    {
                        stream.data.push(w[k]);
                        proof { assert(stream.data@ =~= d0 + w@.take(k + 1)); }
                        k += 1;
                    }
                    proof { assert(w@.take(w@.len() as int) =~= w@); }
                    let len = stream.data.len() as i64;
                    stream.dictionary.insert(CosName::length(), CosObject::Integer(len));
                    doc.insert_object(content_id, CosObject::Stream(stream));
                }
                Some(other) => doc.insert_object(content_id, other),
                None => {}
            }
            proof {
                assert forall|q: ObjectId| #[trigger] store_find(doc.objects@, q)
                    == merged(l0, page_id, w@, ObjectId { object_number: 0, generation: 0 })(q) by {
                    if q == content_id {
                        assert(store_find(doc.objects@, q) == appended(l0(content_id), w@));
                    } else {
                        assert(store_find(doc.objects@, q) == store_find(before, q));
                    }
                }
            }
            Ghost(None)
        }
        None => {
            let content_id = doc.allocate_object_id();
            let wl = w.len() as i64;
            let mut dict = CosDictionary::new();
            dict.insert(CosName::length(), CosObject::Integer(wl));
            doc.insert_object(content_id, CosObject::Stream(crate::cos::CosStream::new(dict, w)));
            doc.xref.insert_if_absent(content_id, XRefEntry::InUse { offset: 0, generation: 0 });
            put_entry(doc, page_id, CosName::contents(), CosObject::Reference(content_id));
            Ghost(Some(content_id))
        }
    }
}


/// The placements as byte sequences.
pub open spec fn placement_views(pls: Seq<Option<Vec<u8>>>) -> Seq<Option<Seq<u8>>> {
    Seq::new(pls.len(), |i: int| match pls[i] { Some(v) => Some(v@), None => None })
}

/// `d` stores exactly what `look` answers.
pub open spec fn stores(d: Document, look: Look) -> bool {
    forall|q: ObjectId| #[trigger] store_find(d.objects@, q) == look(q)
}

/// `q\n`, the placement, the appearance and `\nQ\n`, in one buffer.
fn wrap_placed(pl: &[u8], c: &[u8]) -> (r: Vec<u8>)
    ensures r@ == wrapped(pl@, c@),
{
    let mut w = crate::bytes::str_bytes("q\n");
    let ghost w0 = w@;
    w.extend_from_slice(pl);
    let ghost w1 = w@;
    w.extend_from_slice(c);
    let ghost w2 = w@;
    let tail = crate::bytes::str_bytes("\nQ\n");
    w.extend_from_slice(tail.as_slice());
    proof {
        assert(w1 =~= w0 + pl@);
        assert(w2 =~= w1 + c@);
        assert(w@ =~= w2 + tail@);
        assert(w@ =~= wrapped(pl@, c@));
    }
    w
}

/// Flattens the fields `field_ids`, `placements[i]` being the transform
/// line (`w 0 0 h x y cm`) that places field `i`'s appearance on its
/// widget's rectangle, `None` for a widget without `/Rect`. For each field
/// that is a stored dictionary, in order: its normal appearance, wrapped as
/// `q\n` + placement + appearance + `\nQ\n`, is appended to its page's
/// content (see `merged`), its widget is taken off the page's `/Annots`,
/// and it is taken out of the form's `/Fields`; `/AcroForm` is dropped from
/// the catalog when no field is left (see `flattened`). New content
/// streams get fresh object numbers. No fields: nothing changes.
pub fn flatten_fields(doc: &mut Document, field_ids: &[ObjectId], placements: &[Option<Vec<u8>>]) -> (r: PdfResult<()>)
    requires placements@.len() == field_ids@.len(),
    ensures
        r is Ok,
        final(doc).xref.trailer@ == old(doc).xref.trailer@,
        field_ids@.len() == 0 ==> final(doc).objects@ == old(doc).objects@,
        field_ids@.len() > 0 ==> exists|ids: Seq<ObjectId>| #[trigger] fresh_for(*old(doc), ids)
            && stores(*final(doc), flattened(old(doc).xref.trailer@, look_of(*old(doc)), field_ids@,
                placement_views(placements@), ids)),
{
    if field_ids.len() == 0 {
        return Ok(());
    }
    let ghost trailer = doc.xref.trailer@;
    let ghost l0 = look_of(*doc);
    let ghost d0 = *doc;
    let ghost pls = placement_views(placements@);
    let ghost mut ids: Seq<ObjectId> = Seq::empty();
    let ghost st0: FlatState = (l0, Seq::empty(), 0);
    let mut removed: Vec<ObjectId> = Vec::new();
    let mut i: usize = 0;
    while i < field_ids.len()
        invariant
            i <= field_ids@.len(),
            placements@.len() == field_ids@.len(),
            pls == placement_views(placements@),
            doc.xref.trailer@ == trailer,
            st0 == (l0, Seq::<ObjectId>::empty(), 0int),
            l0 == look_of(d0),
            fresh_for(d0, ids),
            ids.len() > 0 ==> ids.last().object_number == doc.last_allocated,
            forall|q: ObjectId| #[trigger] store_find(d0.objects@, q) is Some ==> store_find(doc.objects@, q) is Some,
            look_of(*doc) == flat_fold(st0, field_ids@, pls, ids, i as int).0,
            removed@ == flat_fold(st0, field_ids@, pls, ids, i as int).1,
            ids.len() == flat_fold(st0, field_ids@, pls, ids, i as int).2,
        decreases field_ids.len() - i,
    {
        let fid = field_ids[i];
        let ghost prev = flat_fold(st0, field_ids@, pls, ids, i as int);
        let ghost before = *doc;
        let field_dict = match doc.get_object_ref(fid) {
            Some(CosObject::Dictionary(d)) => d.deep_clone(),
            _ => {
                proof {
                    assert(look_of(before)(fid) == store_find(before.objects@, fid));
                    assert(flat_fold(st0, field_ids@, pls, ids, i + 1) == prev);
                }
                i += 1;
                continue;
            }
        };
        let ghost fd = field_dict@;
        proof { assert((prev.0)(fid) == Some(CosValue::Dict(fd))); }
        let page_id: Option<ObjectId> = match field_dict.get(&CosName::named("P")) {
            Some(CosObject::Reference(p)) => Some(*p),
            _ => None,
        };
        assert(page_id == widget_page(fd));
        let content = appearance_content(doc, &field_dict);
        let ghost ids_before = ids;
        let ghost l1: Look = prev.0;
        let ghost used: int = prev.2;
        match (page_id, content, &placements[i]) {
            (Some(p), Some(c), Some(pl)) => {
                if c.len() > 0 {
                    let w = wrap_placed(pl.as_slice(), c.as_slice());
                    proof {
                        assert(pls[i as int] == Some(pl@));
                        assert(burn_in(prev.0, fd, pls[i as int]) == Some((p, w@)));
                    }
                    let made = merge_into_page_content(doc, p, w, Ghost(ids));
                    proof {
                        match made@ {
                            Some(fresh) => {
                                lemma_rising_push(ids, before.last_allocated, fresh);
                                ids = ids.push(fresh);
                                l1 = merged(prev.0, p, w@, fresh);
                                used = prev.2 + 1;
                            }
                            None => {
                                l1 = merged(prev.0, p, w@, ObjectId { object_number: 0, generation: 0 });
                            }
                        }
                    }
                } else {
                    proof { assert(burn_in(prev.0, fd, pls[i as int]) is None); }
                }
            }
            _ => {
                proof { assert(burn_in(prev.0, fd, pls[i as int]) is None); }
            }
        }
        proof { assert(look_of(*doc) =~= l1); }
        let ghost mid = *doc;
        match page_id {
            Some(p) => remove_widget_from_page(doc, p, fid),
            None => {}
        }
        removed.push(fid);
        proof {
            lemma_fold_ids(st0, field_ids@, pls, ids_before, ids.subrange(ids_before.len() as int, ids.len() as int), i as int);
            assert(ids_before + ids.subrange(ids_before.len() as int, ids.len() as int) =~= ids);
            assert(flat_fold(st0, field_ids@, pls, ids, i as int) == prev);
            let nxt = flat_step(prev, fid, pls[i as int], ids);
            assert(flat_fold(st0, field_ids@, pls, ids, i + 1) == nxt);
            if ids.len() > ids_before.len() {
                assert(ids[prev.2] == ids.last());
            }
            assert(nxt.2 == ids.len());
            assert(nxt.1 == removed@);
            assert(look_of(*doc) =~= nxt.0);
            assert forall|q: ObjectId| #[trigger] store_find(d0.objects@, q) is Some implies store_find(doc.objects@, q) is Some by {
                assert(store_find(before.objects@, q) is Some);
            }
            assert forall|k: int, q: ObjectId| 0 <= k < ids.len() && #[trigger] store_find(d0.objects@, q) is Some && q.object_number < u32::MAX
                implies q.object_number < (#[trigger] ids[k]).object_number by {
                if k < ids_before.len() {
                    assert(ids[k] == ids_before[k]);
                } else {
                    assert(store_find(before.objects@, q) is Some);
                }
            }
        }
        i += 1;
    }
    let ghost st = flat_fold(st0, field_ids@, pls, ids, field_ids@.len() as int);
    let ghost after_fold = *doc;
    if removed.len() > 0 {
        remove_fields_from_acroform(doc, removed.as_slice());
    }
    let ghost after_fields = *doc;
    cleanup_acroform(doc);
    proof {
        assert(acro_ref(after_fold) == acro_in(trailer, st.0));
        let l3 = if st.1.len() > 0 {
            match acro_in(trailer, st.0) {
                Some(a) => upd(st.0, a, pruned((st.0)(a), lit("Fields"),
                    |v: CosValue| exists|k: int| 0 <= k < st.1.len() && v == ref_of(#[trigger] st.1[k]))),
                None => st.0,
            }
        } else {
            st.0
        };
        assert(look_of(after_fields) =~= l3);
        assert(form_is_empty(after_fields) == form_empty_in(trailer, l3));
        assert(stores(*doc, flattened(trailer, l0, field_ids@, pls, ids)));
        assert(fresh_for(d0, ids));
    }
    Ok(())
}

/// Flattens every field the form's `/Fields` array references (see
/// `flatten_fields`), `placements` given for them in that order.
pub fn flatten_all_fields(doc: &mut Document, placements: &[Option<Vec<u8>>]) -> (r: PdfResult<()>)
    requires placements@.len() == form_field_refs(*old(doc)).len(),
    ensures
        r is Ok,
        final(doc).xref.trailer@ == old(doc).xref.trailer@,
        form_field_refs(*old(doc)).len() == 0 ==> final(doc).objects@ == old(doc).objects@,
        form_field_refs(*old(doc)).len() > 0 ==> exists|ids: Seq<ObjectId>| #[trigger] fresh_for(*old(doc), ids)
            && stores(*final(doc), flattened(old(doc).xref.trailer@, look_of(*old(doc)), form_field_refs(*old(doc)),
                placement_views(placements@), ids)),
{
    let field_ids = form_field_ids(doc);
    if field_ids.len() == 0 {
        return Ok(());
    }
    flatten_fields(doc, field_ids.as_slice(), placements)
}

} // verus!

//! Merging documents: appending the pages of each source to one document.

use vstd::prelude::*;
use crate::bytes::lit;
use crate::cos::{CosDictionary, CosName, CosObject, CosValue, ObjectId, dict_insert, dict_lookup, view_objs};
use crate::document::{Document, PdfResult, lemma_stored_below_max, store_find, store_max};
use crate::pageops::extract::{catalog_entries, page_node_ok, with_parent};
use crate::parser::xref::XRefEntry;
use crate::pdmodel::page_tree::{PagesOut, collect_kids, collect_spec, document_pages, ids_of, name_of, pages_from_store};

verus! {

/// The catalog id and the page-tree node it names, when the trailer's
/// `/Root` is a stored dictionary with a `/Pages` reference.
pub open spec fn root_pages(d: Document) -> Option<(ObjectId, ObjectId)> {
    match dict_lookup(d.xref.trailer@, lit("Root")) {
        Some(CosValue::Ref(n, g)) => {
            let cat = ObjectId { object_number: n, generation: g };
            match store_find(d.objects@, cat) {
                Some(CosValue::Dict(c)) => match dict_lookup(c, lit("Pages")) {
                    Some(CosValue::Ref(pn, pg)) => Some((cat, ObjectId { object_number: pn, generation: pg })),
                    _ => None,
                },
                _ => None,
            }
        },
        _ => None,
    }
}

/// The id a source object gets in the destination: its number shifted by
/// `offset`.
pub open spec fn shifted(id: ObjectId, offset: u32) -> ObjectId {
    ObjectId { object_number: (id.object_number + offset) as u32, generation: id.generation }
}

pub open spec fn kid_refs(ids: Seq<ObjectId>, offset: u32) -> Seq<CosValue> {
    Seq::new(ids.len(), |i: int| CosValue::Ref(shifted(ids[i], offset).object_number, ids[i].generation))
}

/// The page-tree node after appending: its `/Kids` array extended with the
/// new kids and `/Count` set to the new length; anything else is kept.
pub open spec fn node_with_kids(v: Option<CosValue>, more: Seq<CosValue>) -> Option<CosValue> {
    match v {
        Some(CosValue::Dict(d)) => match dict_lookup(d, lit("Kids")) {
            Some(CosValue::Array(ks)) => Some(CosValue::Dict(dict_insert(dict_insert(d, lit("Kids"),
                CosValue::Array(ks + more)), lit("Count"), CosValue::Integer(((ks.len() + more.len()) as i64) as int)))),
            _ => v,
        },
        other => other,
    }
}

/// `v` references a stored leaf page (a dictionary typed `/Page`).
pub open spec fn is_leaf_ref(s: Seq<(ObjectId, CosValue)>, v: CosValue) -> bool {
    match v {
        CosValue::Ref(n, g) => is_leaf(s, ObjectId { object_number: n, generation: g }),
        _ => false,
    }
}

/// `id` is a stored dictionary typed `/Page`.
pub open spec fn is_leaf(s: Seq<(ObjectId, CosValue)>, id: ObjectId) -> bool {
    match store_find(s, id) {
        Some(CosValue::Dict(pd)) => name_of(dict_lookup(pd, lit("Type"))) == Some(lit("Page")),
        _ => false,
    }
}

/// The page-tree node `node` lists only leaf pages among its `/Kids`.
pub open spec fn flat_node(s: Seq<(ObjectId, CosValue)>, node: ObjectId) -> bool {
    match store_find(s, node) {
        Some(CosValue::Dict(d)) => {
            let t = name_of(dict_lookup(d, lit("Type")));
            &&& (t is None || t == Some(lit("Pages")))
            &&& match dict_lookup(d, lit("Kids")) {
                Some(CosValue::Array(ks)) => forall|i: int| 0 <= i < ks.len() ==> is_leaf_ref(s, #[trigger] ks[i]),
                _ => false,
            }
        },
        _ => false,
    }
}

/// The ids the references `ks` name.
pub open spec fn ref_ids(ks: Seq<CosValue>) -> Seq<ObjectId> {
    Seq::new(ks.len(), |i: int| match ks[i] {
        CosValue::Ref(n, g) => ObjectId { object_number: n, generation: g },
        _ => ObjectId { object_number: 0, generation: 0 },
    })
}

/// The ids `p` shifted by `offset`.
pub open spec fn shifted_ids(p: Seq<ObjectId>, offset: u32) -> Seq<ObjectId> {
    Seq::new(p.len(), |i: int| shifted(p[i], offset))
}

proof fn lemma_collect_flat_kids(s: Seq<(ObjectId, CosValue)>, ks: Seq<CosValue>, i: int, acc: Seq<ObjectId>)
    requires
        0 <= i <= ks.len(),
        forall|j: int| 0 <= j < ks.len() ==> is_leaf_ref(s, #[trigger] ks[j]),
    ensures collect_kids(s, ks, i, 0, acc) == PagesOut::Pages(acc + ref_ids(ks).subrange(i, ks.len() as int)),
    decreases ks.len() - i,
{
    if i == ks.len() {
        assert(acc + ref_ids(ks).subrange(i, ks.len() as int) =~= acc);
    } else {
        assert(is_leaf_ref(s, ks[i]));
        let id = ref_ids(ks)[i];
        assert(collect_spec(s, id, 1) == PagesOut::Pages(seq![id]));
        lemma_collect_flat_kids(s, ks, i + 1, acc + seq![id]);
        assert(acc + seq![id] + ref_ids(ks).subrange(i + 1, ks.len() as int) =~= acc + ref_ids(ks).subrange(i, ks.len() as int));
    }
}

/// A flat node's pages are its kids.
pub(crate) proof fn lemma_flat_pages(s: Seq<(ObjectId, CosValue)>, node: ObjectId, ks: Seq<CosValue>)
    requires
        flat_node(s, node),
        store_find(s, node) matches Some(CosValue::Dict(d)) && dict_lookup(d, lit("Kids")) == Some(CosValue::Array(ks)),
    ensures collect_spec(s, node, 0) == PagesOut::Pages(ref_ids(ks)),
{
    reveal_strlit("Page");
    reveal_strlit("Pages");
    vstd::string::is_ascii_spec_bytes("Page");
    vstd::string::is_ascii_spec_bytes("Pages");
    assert(lit("Page").len() != lit("Pages").len());
    lemma_collect_flat_kids(s, ks, 0, Seq::empty());
    assert(Seq::<ObjectId>::empty() + ref_ids(ks).subrange(0, ks.len() as int) =~= ref_ids(ks));
}

/// Every page a walk collects is a stored leaf page.
pub(crate) proof fn lemma_collected_leaves(s: Seq<(ObjectId, CosValue)>, node: ObjectId, depth: int)
    ensures collect_spec(s, node, depth) matches PagesOut::Pages(p) ==> forall|k: int| 0 <= k < p.len() ==> is_leaf(s, #[trigger] p[k]),
    decreases 65 - depth, 1int, 0int,
{
    if 0 <= depth <= 64 {
        match store_find(s, node) {
            Some(CosValue::Dict(d)) => {
                let t = name_of(dict_lookup(d, lit("Type")));
                if t == Some(lit("Page")) {
                } else if t is None || t == Some(lit("Pages")) {
                    match dict_lookup(d, lit("Kids")) {
                        Some(CosValue::Array(kids)) => {
                            lemma_collected_kid_leaves(s, kids, 0, depth, Seq::empty());
                        }
                        _ => {}
                    }
                }
            }
            _ => {}
        }
    }
}

proof fn lemma_collected_kid_leaves(s: Seq<(ObjectId, CosValue)>, kids: Seq<CosValue>, i: int, depth: int, acc: Seq<ObjectId>)
    requires forall|k: int| 0 <= k < acc.len() ==> is_leaf(s, #[trigger] acc[k]),
    ensures collect_kids(s, kids, i, depth, acc) matches PagesOut::Pages(p) ==> forall|k: int| 0 <= k < p.len() ==> is_leaf(s, #[trigger] p[k]),
    decreases 65 - depth, 0int, kids.len() - i,
{
    if depth > 64 || depth < 0 || i < 0 || i >= kids.len() {
    } else {
        match kids[i] {
            CosValue::Ref(n, g) => {
                let id = ObjectId { object_number: n, generation: g };
                lemma_collected_leaves(s, id, depth + 1);
                match collect_spec(s, id, depth + 1) {
                    PagesOut::Pages(p) => {
                        assert forall|k: int| 0 <= k < (acc + p).len() implies is_leaf(s, #[trigger] (acc + p)[k]) by {
                            if k < acc.len() {
                                assert((acc + p)[k] == acc[k]);
                            } else {
                                assert((acc + p)[k] == p[k - acc.len()]);
                            }
                        }
                        lemma_collected_kid_leaves(s, kids, i + 1, depth, acc + p);
                    }
                    _ => {}
                }
            }
            _ => {}
        }
    }
}

/// Appending to a flat page-tree node keeps it flat, and the pages become
/// the old pages followed by the appended ones.
proof fn lemma_append_flat(d0: Document, d1: Document, src_pages: Seq<ObjectId>, offset: u32)
    requires
        root_pages(d0) is Some,
        root_pages(d1) == root_pages(d0),
        flat_node(d0.objects@, root_pages(d0)->Some_0.1),
        offset == store_max(d0.objects@) + 1,
        store_find(d1.objects@, root_pages(d0)->Some_0.1)
            == node_with_kids(store_find(d0.objects@, root_pages(d0)->Some_0.1), kid_refs(src_pages, offset)),
        forall|q: ObjectId| q.object_number < offset && q != root_pages(d0)->Some_0.1
            ==> #[trigger] store_find(d1.objects@, q) == store_find(d0.objects@, q),
        forall|k: int| 0 <= k < src_pages.len() ==> is_leaf(d1.objects@, shifted(#[trigger] src_pages[k], offset)),
    ensures
        flat_node(d1.objects@, root_pages(d0)->Some_0.1),
        document_pages(&d0) is Some,
        document_pages(&d1) == Some(document_pages(&d0)->Some_0 + shifted_ids(src_pages, offset)),
{
    let node = root_pages(d0)->Some_0.1;
    let s0 = d0.objects@;
    let s1 = d1.objects@;
    let d = store_find(s0, node)->Some_0->Dict_0;
    let ks = dict_lookup(d, lit("Kids"))->Some_0->Array_0;
    let more = kid_refs(src_pages, offset);
    let ks2 = ks + more;
    let n = ((ks.len() + more.len()) as i64) as int;
    let d1n = dict_insert(dict_insert(d, lit("Kids"), CosValue::Array(ks2)), lit("Count"), CosValue::Integer(n));
    reveal_strlit("Kids");
    reveal_strlit("Count");
    reveal_strlit("Type");
    reveal_strlit("Page");
    reveal_strlit("Pages");
    vstd::string::is_ascii_spec_bytes("Kids");
    vstd::string::is_ascii_spec_bytes("Count");
    vstd::string::is_ascii_spec_bytes("Type");
    vstd::string::is_ascii_spec_bytes("Page");
    vstd::string::is_ascii_spec_bytes("Pages");
    assert(lit("Kids") != lit("Count"));
    assert(lit("Type")[0] != lit("Kids")[0]);
    assert(lit("Type") != lit("Count"));
    assert(lit("Page") != lit("Pages"));
    crate::cos::lemma_lookup_insert(d, lit("Kids"), CosValue::Array(ks2), lit("Type"));
    crate::cos::lemma_lookup_insert(dict_insert(d, lit("Kids"), CosValue::Array(ks2)), lit("Count"), CosValue::Integer(n), lit("Type"));
    crate::cos::lemma_lookup_insert(d, lit("Kids"), CosValue::Array(ks2), lit("Kids"));
    crate::cos::lemma_lookup_insert(dict_insert(d, lit("Kids"), CosValue::Array(ks2)), lit("Count"), CosValue::Integer(n), lit("Kids"));
    assert(store_find(s1, node) == Some(CosValue::Dict(d1n)));
    assert forall|i: int| 0 <= i < ks2.len() implies is_leaf_ref(s1, #[trigger] ks2[i]) by {
        if i < ks.len() {
            assert(ks2[i] == ks[i]);
            assert(is_leaf_ref(s0, ks[i]));
            let id = ref_ids(ks)[i];
            assert(store_find(s0, id) is Some);
            lemma_stored_below_max(s0, id);
            assert(id != node);
            assert(store_find(s1, id) == store_find(s0, id));
        } else {
            let k = i - ks.len();
            assert(ks2[i] == more[k]);
            assert(is_leaf(s1, shifted(src_pages[k], offset)));
        }
    }
    assert(flat_node(s1, node));
    lemma_flat_pages(s0, node, ks);
    lemma_flat_pages(s1, node, ks2);
    assert(ref_ids(ks2) =~= ref_ids(ks) + shifted_ids(src_pages, offset));
}

/// Setting a key to the value it already has changes nothing.
proof fn lemma_insert_twice(s: Seq<(Seq<u8>, CosValue)>, k: Seq<u8>, v: CosValue)
    ensures dict_insert(dict_insert(s, k, v), k, v) == dict_insert(s, k, v),
{
    crate::cos::lemma_find_key_from(s, k, 0);
    let t = dict_insert(s, k, v);
    crate::cos::lemma_find_key_from(t, k, 0);
    let i = crate::cos::find_key(s, k);
    let j = crate::cos::find_key(t, k);
    if i >= 0 {
        assert(t[i].0 == k);
        if j != i {
            assert(j < i || j == -1);
            if j >= 0 { assert(t[j] == s[j]); }
        }
        assert(j == i);
        assert(t.update(i, (k, v)) =~= t);
    } else {
        assert(t[s.len() as int].0 == k);
        if j >= 0 && j < s.len() { assert(t[j] == s[j]); }
        assert(j == s.len());
        assert(t.update(j, (k, v)) =~= t);
    }
}

/// With `/Parent` set, a leaf page is still a leaf page.
pub(crate) proof fn lemma_parent_keeps_leaf(v: Option<CosValue>, node: ObjectId)
    ensures
        (v matches Some(CosValue::Dict(pd)) && name_of(dict_lookup(pd, lit("Type"))) == Some(lit("Page")))
            ==> (with_parent(v, node) matches Some(CosValue::Dict(qd)) && name_of(dict_lookup(qd, lit("Type"))) == Some(lit("Page"))),
{
    reveal_strlit("Parent");
    reveal_strlit("Type");
    vstd::string::is_ascii_spec_bytes("Parent");
    vstd::string::is_ascii_spec_bytes("Type");
    assert(lit("Parent")[0] != lit("Type")[0]);
    match v {
        Some(CosValue::Dict(pd)) => {
            crate::cos::lemma_lookup_insert(pd, lit("Parent"), CosValue::Ref(node.object_number, node.generation), lit("Type"));
        }
        _ => {}
    }
}

/// Appends documents into one destination document.
pub struct PdfMerger {
    pub dest_doc: Document,
}

fn in_use() -> (e: XRefEntry)
    ensures e == (XRefEntry::InUse { offset: 0, generation: 0 }),
{
    XRefEntry::InUse { offset: 0, generation: 0 }
}

impl PdfMerger {
    /// An empty destination: a catalog and a page-tree node with no kids.
    pub fn new() -> (r: PdfMerger)
        ensures
            root_pages(r.dest_doc) is Some,
            page_node_ok(store_find(r.dest_doc.objects@, root_pages(r.dest_doc)->Some_0.1), 0),
            flat_node(r.dest_doc.objects@, root_pages(r.dest_doc)->Some_0.1),
            document_pages(&r.dest_doc) == Some(Seq::<ObjectId>::empty()),
            dict_lookup(r.dest_doc.xref.trailer@, lit("Size")) is Some,
    {
        let mut doc = Document::empty();
        let catalog_id = doc.allocate_object_id();
        let pages_id = doc.allocate_object_id();
        assert(catalog_id.object_number == 1 && pages_id.object_number == 2);
        let ghost t0 = doc.xref.trailer@;
        doc.xref.trailer.insert(CosName::root(), CosObject::Reference(catalog_id));
        proof {
            crate::cos::lemma_lookup_insert(t0, lit("Root"), CosValue::Ref(catalog_id.object_number, catalog_id.generation), lit("Root"));
        }
        let mut catalog = CosDictionary::new();
        catalog.insert(CosName::type_key(), CosObject::Name(CosName::named("Catalog")));
        let ghost c1 = catalog@;
        catalog.insert(CosName::pages(), CosObject::Reference(pages_id));
        proof {
            crate::cos::lemma_lookup_insert(c1, lit("Pages"), CosValue::Ref(pages_id.object_number, pages_id.generation), lit("Pages"));
        }
        doc.insert_object(catalog_id, CosObject::Dictionary(catalog));
        doc.xref.insert_if_absent(catalog_id, in_use());

        let mut pages = CosDictionary::new();
        pages.insert(CosName::type_key(), CosObject::Name(CosName::named("Pages")));
        let ghost d1 = pages@;
        pages.insert(CosName::count(), CosObject::Integer(0));
        let ghost d2 = pages@;
        let kids: Vec<CosObject> = Vec::new();
        let ghost kv = CosValue::Array(view_objs(kids@));
        proof { crate::cos::lemma_view_objs(kids@); }
        pages.insert(CosName::kids(), CosObject::Array(kids));
        proof {
            reveal_strlit("Count");
            reveal_strlit("Kids");
            vstd::string::is_ascii_spec_bytes("Count");
            vstd::string::is_ascii_spec_bytes("Kids");
            assert(lit("Count").len() != lit("Kids").len());
            crate::cos::lemma_lookup_insert(d1, lit("Count"), CosValue::Integer(0), lit("Count"));
            crate::cos::lemma_lookup_insert(d2, lit("Kids"), kv, lit("Count"));
            crate::cos::lemma_lookup_insert(d2, lit("Kids"), kv, lit("Kids"));
            assert(page_node_ok(Some(CosValue::Dict(pages@)), 0));
            reveal_strlit("Type");
            reveal_strlit("Pages");
            vstd::string::is_ascii_spec_bytes("Type");
            vstd::string::is_ascii_spec_bytes("Pages");
            assert(lit("Type") != lit("Count"));
            assert(lit("Type")[0] != lit("Kids")[0]);
            crate::cos::lemma_lookup_insert(d1, lit("Count"), CosValue::Integer(0), lit("Type"));
            crate::cos::lemma_lookup_insert(d2, lit("Kids"), kv, lit("Type"));
        }
        doc.insert_object(pages_id, CosObject::Dictionary(pages));
        doc.xref.insert_if_absent(pages_id, in_use());

        let size = (doc.objects.max_object_number() as i64) + 1;
        let ghost t1 = doc.xref.trailer@;
        doc.xref.trailer.insert(CosName::named("Size"), CosObject::Integer(size));
        proof {
            crate::cos::lemma_lookup_insert(t1, lit("Size"), CosValue::Integer(size as int), lit("Root"));
            crate::cos::lemma_lookup_insert(t1, lit("Size"), CosValue::Integer(size as int), lit("Size"));
            reveal_strlit("Size");
            reveal_strlit("Root");
            vstd::string::is_ascii_spec_bytes("Size");
            vstd::string::is_ascii_spec_bytes("Root");
            assert(lit("Size")[0] != lit("Root")[0]);
            assert(root_pages(doc) == Some((catalog_id, pages_id)));
            assert(flat_node(doc.objects@, pages_id));
            lemma_flat_pages(doc.objects@, pages_id, Seq::empty());
            assert(ref_ids(Seq::<CosValue>::empty()) =~= Seq::<ObjectId>::empty());
        }
        PdfMerger { dest_doc: doc }
    }

    /// Appends the pages of `src`: every object of `src` is copied with its
    /// number shifted above the destination's largest (each page also gets a
    /// cross-reference entry, and its `/Parent` is set to the destination's
    /// page-tree node), and that node's `/Kids` gains the shifted pages (with
    /// `/Count` updated). An error, with nothing changed,
    /// when `src`'s page tree cannot be walked.
    pub fn append(&mut self, src_doc: &Document) -> (r: PdfResult<()>)
        requires
            root_pages(old(self).dest_doc) is Some,
            store_max(old(self).dest_doc.objects@) + 1 + store_max(src_doc.objects@) < u32::MAX,
        ensures
            r is Ok <==> document_pages(src_doc) is Some,
            r is Err ==> final(self).dest_doc.objects@ == old(self).dest_doc.objects@,
            root_pages(final(self).dest_doc) == root_pages(old(self).dest_doc),
            r is Ok ==> ({
                let node = root_pages(old(self).dest_doc)->Some_0.1;
                let offset = (store_max(old(self).dest_doc.objects@) + 1) as u32;
                &&& store_find(old(self).dest_doc.objects@, node) is Some ==> store_find(final(self).dest_doc.objects@, node)
                    == node_with_kids(store_find(old(self).dest_doc.objects@, node), kid_refs(document_pages(src_doc)->Some_0, offset))
                &&& forall|q: ObjectId| #[trigger] store_find(src_doc.objects@, q) is Some
                    && !document_pages(src_doc)->Some_0.contains(q)
                    ==> store_find(final(self).dest_doc.objects@, shifted(q, offset)) == store_find(src_doc.objects@, q)
                &&& forall|k: int| 0 <= k < document_pages(src_doc)->Some_0.len()
                    ==> store_find(final(self).dest_doc.objects@, shifted(#[trigger] document_pages(src_doc)->Some_0[k], offset))
                        == with_parent(store_find(src_doc.objects@, document_pages(src_doc)->Some_0[k]), node)
                &&& forall|q: ObjectId| q.object_number < offset && q != node
                    ==> #[trigger] store_find(final(self).dest_doc.objects@, q) == store_find(old(self).dest_doc.objects@, q)
                &&& flat_node(old(self).dest_doc.objects@, node) ==> {
                    &&& flat_node(final(self).dest_doc.objects@, node)
                    &&& document_pages(&old(self).dest_doc) is Some
                    &&& document_pages(&final(self).dest_doc) == Some(document_pages(&old(self).dest_doc)->Some_0
                        + shifted_ids(document_pages(src_doc)->Some_0, offset))
                }
            }),
    {
        let tree = match src_doc.pages() {
            Ok(t) => t,
            Err(e) => return Err(e),
        };
        let ghost d0 = self.dest_doc;
        let ghost cat = root_pages(d0)->Some_0.0;
        let ghost node = root_pages(d0)->Some_0.1;
        let catalog_id = match self.dest_doc.catalog_id() {
            Some(id) => id,
            None => {
                proof { assert(false); }
                return Ok(());
            }
        };
        let pages_id = match self.dest_doc.get_object_ref(catalog_id) {
            Some(CosObject::Dictionary(d)) => match d.get(&CosName::pages()) {
                Some(CosObject::Reference(id)) => *id,
                _ => {
                    proof { assert(false); }
                    return Ok(());
                }
            },
            _ => {
                proof { assert(false); }
                return Ok(());
            }
        };
        assert(catalog_id == cat && pages_id == node);
        proof { lemma_stored_below_max(d0.objects@, cat); }
        let max = self.dest_doc.objects.max_object_number();
        let offset: u32 = max + 1;
        let ghost src_pages = ids_of(tree.pages@);

        // The page references to add, in order.
        let mut new_kids: Vec<CosObject> = Vec::new();
        let mut k: usize = 0;
        while k < tree.pages.len()
            invariant
                k <= tree.pages@.len(),
                src_pages == ids_of(tree.pages@),
                pages_from_store(tree.pages@, src_doc.objects@),
                offset == store_max(d0.objects@) + 1,
                store_max(d0.objects@) + 1 + store_max(src_doc.objects@) < u32::MAX,
                view_objs(new_kids@) == kid_refs(src_pages.take(k as int), offset),
                self.dest_doc.objects@ == d0.objects@,
                self.dest_doc.xref.trailer@ == d0.xref.trailer@,
            decreases tree.pages.len() - k,
        {
            let pid = tree.pages[k].0;
            proof {
                assert(store_find(src_doc.objects@, pid) is Some);
                lemma_stored_below_max(src_doc.objects@, pid);
            }
            let mapped = ObjectId::new(pid.object_number + offset, pid.generation);
            self.dest_doc.xref.insert_if_absent(mapped, in_use());
            let ghost prev = new_kids@;
            new_kids.push(CosObject::Reference(mapped));
            proof {
                assert(new_kids@.drop_last() =~= prev);
                assert(new_kids@.last() == CosObject::Reference(mapped));
                assert(crate::cos::view_obj(CosObject::Reference(mapped)) == CosValue::Ref(mapped.object_number, mapped.generation));
                assert(view_objs(new_kids@) == view_objs(prev).push(CosValue::Ref(mapped.object_number, mapped.generation)));
                assert(src_pages[k as int] == pid);
                assert(src_pages.take(k + 1) =~= src_pages.take(k as int).push(pid));
                assert(kid_refs(src_pages.take(k + 1), offset) =~= kid_refs(src_pages.take(k as int), offset).push(
                    CosValue::Ref(mapped.object_number, mapped.generation)));
            }
            k += 1;
        }
        proof { assert(src_pages.take(tree.pages@.len() as int) =~= src_pages); }
        let ghost more = view_objs(new_kids@);

        // The page-tree node gains the new kids.
        let ghost nv = store_find(d0.objects@, node);
        proof {
            if nv is Some {
                lemma_stored_below_max(d0.objects@, node);
            }
        }
        match self.dest_doc.take_object(pages_id) {
            Some(CosObject::Dictionary(mut d)) => {
                let ghost dv = d@;
                let all_opt = match d.get(&CosName::kids()) {
                    Some(CosObject::Array(ks)) => {
                        let mut all: Vec<CosObject> = Vec::new();
                        let mut i: usize = 0;
                        proof { crate::cos::lemma_view_objs(ks@); }
                        while i < ks.len()
                            invariant
                                i <= ks@.len(),
                                view_objs(all@) == view_objs(ks@).take(i as int),
                                view_objs(ks@).len() == ks@.len(),
                                forall|q: int| 0 <= q < ks@.len() ==> view_objs(ks@)[q] == crate::cos::view_obj(#[trigger] ks@[q]),
                            decreases ks.len() - i,
                        {
                            let ghost prev = all@;
                            all.push(ks[i].deep_clone());
                            proof {
                                assert(all@.drop_last() =~= prev);
                                assert(view_objs(all@) =~= view_objs(ks@).take(i + 1));
                            }
                            i += 1;
                        }
                        proof { assert(view_objs(ks@).take(ks@.len() as int) =~= view_objs(ks@)); }
                        let ghost base = view_objs(all@);
                        let mut j: usize = 0;
                        proof { crate::cos::lemma_view_objs(new_kids@); }
                        while j < new_kids.len()
                            invariant
                                j <= new_kids@.len(),
                                view_objs(all@) == base + more.take(j as int),
                                more == view_objs(new_kids@),
                                more.len() == new_kids@.len(),
                                forall|q: int| 0 <= q < new_kids@.len() ==> more[q] == crate::cos::view_obj(#[trigger] new_kids@[q]),
                            decreases new_kids.len() - j,
                        {
                            let ghost prev = all@;
                            all.push(new_kids[j].deep_clone());
                            proof {
                                assert(all@.drop_last() =~= prev);
                                assert(view_objs(all@) =~= base + more.take(j + 1));
                            }
                            j += 1;
                        }
                        proof { assert(more.take(more.len() as int) =~= more); }
                        Some(all)
                    }
                    _ => None,
                };
                match all_opt {
                    Some(all) => {
                        proof { crate::cos::lemma_view_objs(all@); }
                        let n = all.len() as i64;
                        let ghost av = CosValue::Array(view_objs(all@));
                        d.insert(CosName::kids(), CosObject::Array(all));
                        let ghost e1 = d@;
                        d.insert(CosName::count(), CosObject::Integer(n));
                        proof {
                            reveal_strlit("Count");
                            reveal_strlit("Kids");
                            reveal_strlit("Pages");
                            vstd::string::is_ascii_spec_bytes("Count");
                            vstd::string::is_ascii_spec_bytes("Kids");
                            vstd::string::is_ascii_spec_bytes("Pages");
                            assert(lit("Kids").len() != lit("Pages").len());
                            assert(lit("Count")[0] != lit("Pages")[0]);
                            crate::cos::lemma_lookup_insert(dv, lit("Kids"), av, lit("Pages"));
                            crate::cos::lemma_lookup_insert(e1, lit("Count"), CosValue::Integer(n as int), lit("Pages"));
                        }
                    }
                    None => {}
                }
                assert(dict_lookup(d@, lit("Pages")) == dict_lookup(dv, lit("Pages")));
                proof { assert(Some(CosValue::Dict(d@)) == node_with_kids(nv, more)); }
                self.dest_doc.insert_object(pages_id, CosObject::Dictionary(d));
            }
            Some(other) => {
                self.dest_doc.insert_object(pages_id, other);
            }
            None => {}
        }
        let ghost d1 = self.dest_doc;

        // Every object of the source, at its shifted number.
        let entries = src_doc.objects.entries();
        let ghost sv = crate::document::store_view(entries@);
        let mut i: usize = 0;
        while i < entries.len()
            invariant
                i <= entries@.len(),
                sv == crate::document::store_view(entries@),
                sv == src_doc.objects@,
                forall|a: int, b: int| 0 <= a < b < entries@.len() ==> entries@[a].0 != entries@[b].0,
                offset == store_max(d0.objects@) + 1,
                store_max(d0.objects@) + 1 + store_max(src_doc.objects@) < u32::MAX,
                forall|q: ObjectId| q.object_number < offset ==> #[trigger] store_find(self.dest_doc.objects@, q) == store_find(d1.objects@, q),
                forall|a: int| 0 <= a < i ==> store_find(self.dest_doc.objects@, shifted(#[trigger] sv[a].0, offset)) == Some(sv[a].1),
                self.dest_doc.xref.trailer@ == d0.xref.trailer@,
            decreases entries.len() - i,
        {
            let id = entries[i].0;
            proof {
                crate::document::lemma_store_max(sv);
                assert(sv[i as int].0 == id);
            }
            let mapped = ObjectId::new(id.object_number + offset, id.generation);
            let copy = entries[i].1.deep_clone();
            self.dest_doc.insert_object(mapped, copy);
            proof {
                assert forall|a: int| 0 <= a < i + 1 implies store_find(self.dest_doc.objects@, shifted(#[trigger] sv[a].0, offset)) == Some(sv[a].1) by {
                    if a < i {
                        assert(sv[a].0 != sv[i as int].0);
                        assert(shifted(sv[a].0, offset) != mapped);
                    }
                }
            }
            i += 1;
        }
        proof {
            assert forall|q: ObjectId| #[trigger] store_find(src_doc.objects@, q) is Some
                implies store_find(self.dest_doc.objects@, shifted(q, offset)) == store_find(src_doc.objects@, q) by {
                crate::document::lemma_store_find_from_some(sv, q);
                let a = choose|a: int| 0 <= a < sv.len() && sv[a].0 == q;
                crate::document::lemma_store_find_distinct(sv, a);
            }
        }
        // Each copied page names the destination's page-tree node as parent.
        let ghost d2 = self.dest_doc;
        let ghost src = src_doc.objects@;
        let mut k: usize = 0;
        while k < tree.pages.len()
            invariant
                k <= tree.pages@.len(),
                src_pages == ids_of(tree.pages@),
                pages_from_store(tree.pages@, src),
                src == src_doc.objects@,
                pages_id == node,
                offset == store_max(d0.objects@) + 1,
                store_max(d0.objects@) + 1 + store_max(src) < u32::MAX,
                forall|q: ObjectId| q.object_number < offset ==> #[trigger] store_find(self.dest_doc.objects@, q) == store_find(d1.objects@, q),
                forall|q: ObjectId| #[trigger] store_find(src, q) is Some ==> store_find(self.dest_doc.objects@, shifted(q, offset))
                    == if src_pages.take(k as int).contains(q) { with_parent(store_find(src, q), node) } else { store_find(src, q) },
                self.dest_doc.xref.trailer@ == d0.xref.trailer@,
            decreases tree.pages.len() - k,
        {
            let pid = tree.pages[k].0;
            proof {
                assert(src_pages[k as int] == pid);
                assert(store_find(src, pid) is Some);
                lemma_stored_below_max(src, pid);
            }
            let mapped = ObjectId::new(pid.object_number + offset, pid.generation);
            let ghost before = self.dest_doc.objects@;
            match self.dest_doc.take_object(mapped) {
                Some(CosObject::Dictionary(mut d)) => {
                    d.insert(CosName::parent(), CosObject::Reference(pages_id));
                    self.dest_doc.insert_object(mapped, CosObject::Dictionary(d));
                }
                Some(other) => {
                    self.dest_doc.insert_object(mapped, other);
                }
                None => {}
            }
            proof {
                assert(src_pages.take(k + 1) =~= src_pages.take(k as int).push(pid));
                let cur = store_find(before, mapped);
                assert(cur == if src_pages.take(k as int).contains(pid) { with_parent(store_find(src, pid), node) } else { store_find(src, pid) });
                if src_pages.take(k as int).contains(pid) {
                    match store_find(src, pid) {
                        Some(CosValue::Dict(pd)) => {
                            lemma_insert_twice(pd, lit("Parent"), CosValue::Ref(node.object_number, node.generation));
                        }
                        _ => {}
                    }
                }
                assert(store_find(self.dest_doc.objects@, mapped) == with_parent(store_find(src, pid), node));
                assert forall|q: ObjectId| #[trigger] store_find(src, q) is Some implies store_find(self.dest_doc.objects@, shifted(q, offset))
                    == if src_pages.take(k + 1).contains(q) { with_parent(store_find(src, q), node) } else { store_find(src, q) } by {
                    lemma_stored_below_max(src, q);
                    if q == pid {
                        assert(src_pages.take(k + 1)[k as int] == pid);
                        assert(src_pages.take(k + 1).contains(q));
                    } else {
                        assert(shifted(q, offset) != mapped);
                        assert(store_find(self.dest_doc.objects@, shifted(q, offset)) == store_find(before, shifted(q, offset)));
                        assert(store_find(before, shifted(q, offset))
                            == if src_pages.take(k as int).contains(q) { with_parent(store_find(src, q), node) } else { store_find(src, q) });
                        if src_pages.take(k + 1).contains(q) {
                            let w = choose|w: int| 0 <= w < k + 1 && #[trigger] src_pages.take(k + 1)[w] == q;
                            assert(w != k);
                            assert(src_pages.take(k as int)[w] == q);
                        }
                        if src_pages.take(k as int).contains(q) {
                            let w = choose|w: int| 0 <= w < k && #[trigger] src_pages.take(k as int)[w] == q;
                            assert(src_pages.take(k + 1)[w] == q);
                        }
                    }
                }
            }
            k += 1;
        }
        proof {
            assert(src_pages.take(tree.pages@.len() as int) =~= src_pages);
            assert forall|j: int| 0 <= j < src_pages.len() implies store_find(self.dest_doc.objects@, shifted(#[trigger] src_pages[j], offset))
                == with_parent(store_find(src, src_pages[j]), node) by {
                assert(store_find(src, src_pages[j]) is Some);
                assert(src_pages.contains(src_pages[j]));
            }
        }
        let size = (self.dest_doc.objects.max_object_number() as i64) + 1;
        let ghost t1 = self.dest_doc.xref.trailer@;
        self.dest_doc.xref.trailer.insert(CosName::named("Size"), CosObject::Integer(size));
        proof {
            crate::cos::lemma_lookup_insert(t1, lit("Size"), CosValue::Integer(size as int), lit("Root"));
            reveal_strlit("Size");
            reveal_strlit("Root");
            vstd::string::is_ascii_spec_bytes("Size");
            vstd::string::is_ascii_spec_bytes("Root");
            assert(lit("Size")[0] != lit("Root")[0]);
            assert(store_find(self.dest_doc.objects@, cat) == store_find(d1.objects@, cat));
            assert(root_pages(self.dest_doc) == root_pages(d0));
            if flat_node(d0.objects@, node) {
                lemma_collected_leaves(src_doc.objects@, root_pages(*src_doc)->Some_0.1, 0);
                assert forall|k: int| 0 <= k < src_pages.len() implies is_leaf(self.dest_doc.objects@, shifted(#[trigger] src_pages[k], offset)) by {
                    assert(is_leaf(src_doc.objects@, src_pages[k]));
                    assert(store_find(src_doc.objects@, src_pages[k]) is Some);
                    lemma_parent_keeps_leaf(store_find(src_doc.objects@, src_pages[k]), node);
                }
                lemma_append_flat(d0, self.dest_doc, src_pages, offset);
            }
        }
        Ok(())
    }

    /// The merged document.
    pub fn finish(self) -> (r: Document)
        ensures r == self.dest_doc,
    {
        self.dest_doc
    }
}

} // verus!

//! Extracting pages into a new document.

use vstd::prelude::*;
use crate::bytes::lit;
use crate::cos::{CosDictionary, CosName, CosObject, CosValue, ObjectId, dict_insert, dict_lookup};
use crate::document::{Document, PdfResult, ids_at_most, store_find, store_max, store_view};
use crate::parser::xref::XRefEntry;
use crate::pageops::merge::{flat_node, is_leaf, is_leaf_ref, lemma_collected_leaves, lemma_flat_pages, lemma_parent_keeps_leaf};
use crate::pdmodel::page_tree::{document_pages, ids_of, name_of, pages_from_store};

verus! {

/// The pages the indices name, in order, indices past the last page left out.
pub open spec fn picked_pages(p: Seq<ObjectId>, idx: Seq<usize>) -> Seq<ObjectId>
    decreases idx.len(),
{
    if idx.len() == 0 {
        Seq::empty()
    } else {
        picked_pages(p, idx.drop_last()) + (if idx.last() < p.len() { seq![p[idx.last() as int]] } else { Seq::empty() })
    }
}

/// The catalog of a built document: `/Type /Catalog` and `/Pages`.
pub open spec fn catalog_entries(pages: ObjectId) -> Seq<(Seq<u8>, CosValue)> {
    dict_insert(dict_insert(Seq::empty(), lit("Type"), CosValue::Name(lit("Catalog"))),
        lit("Pages"), CosValue::Ref(pages.object_number, pages.generation))
}

/// A page-tree node with `n` kids and `/Count n` (kept in 64 bits).
pub open spec fn page_node_ok(v: Option<CosValue>, n: int) -> bool {
    match v {
        Some(CosValue::Dict(pd)) => dict_lookup(pd, lit("Count")) == Some(CosValue::Integer((n as i64) as int)) && match dict_lookup(pd, lit("Kids")) {
            Some(CosValue::Array(k)) => k.len() == n,
            _ => false,
        },
        _ => false,
    }
}

/// `doc` has a catalog (the trailer's `/Root`) pointing to a page-tree node
/// with `/Count n` and `n` kids.
pub open spec fn has_page_node(doc: Document, n: int) -> bool {
    exists|cat: ObjectId, node: ObjectId| {
        &&& dict_lookup(doc.xref.trailer@, lit("Root")) == Some(CosValue::Ref(cat.object_number, cat.generation))
        &&& #[trigger] store_find(doc.objects@, cat) == Some(CosValue::Dict(catalog_entries(node)))
        &&& page_node_ok(#[trigger] store_find(doc.objects@, node), n)
    }
}

/// A copied page: a dictionary gets `/Parent` pointing at `node`; anything
/// else is kept.
pub open spec fn with_parent(v: Option<CosValue>, node: ObjectId) -> Option<CosValue> {
    match v {
        Some(CosValue::Dict(d)) => Some(CosValue::Dict(dict_insert(d, lit("Parent"), CosValue::Ref(node.object_number, node.generation)))),
        other => other,
    }
}

/// The references `ks` name, one by one, stored copies of the pages
/// `picked` of `store` with `/Parent` set to `node`.
pub open spec fn kids_copy(nd: Seq<(ObjectId, CosValue)>, ks: Seq<CosValue>, store: Seq<(ObjectId, CosValue)>,
    picked: Seq<ObjectId>, node: ObjectId) -> bool
{
    &&& ks.len() == picked.len()
    &&& forall|j: int| 0 <= j < ks.len() ==> (#[trigger] ks[j] matches CosValue::Ref(n, g)
        && store_find(store, picked[j]) is Some
        && store_find(nd, ObjectId { object_number: n, generation: g }) == with_parent(store_find(store, picked[j]), node))
}

/// The document `extract_pages` builds from the pages `picked` of `store`:
/// the trailer's `/Root` is object 1, a catalog naming the page-tree node
/// object 2, whose `/Kids` are copies of the picked pages, in order, each
/// with `/Parent` set to that node (while the object numbers last).
pub open spec fn extracted(nd: Document, store: Seq<(ObjectId, CosValue)>, picked: Seq<ObjectId>) -> bool {
    let cat = ObjectId { object_number: 1, generation: 0 };
    let node = ObjectId { object_number: 2, generation: 0 };
    &&& dict_lookup(nd.xref.trailer@, lit("Root")) == Some(CosValue::Ref(1, 0))
    &&& store_find(nd.objects@, cat) == Some(CosValue::Dict(catalog_entries(node)))
    &&& page_node_ok(store_find(nd.objects@, node), picked.len() as int)
    &&& (store_find(nd.objects@, node) matches Some(CosValue::Dict(pd)) && dict_lookup(pd, lit("Type")) == Some(CosValue::Name(lit("Pages"))))
    &&& picked.len() + 2 <= u32::MAX ==> (store_find(nd.objects@, node) matches Some(CosValue::Dict(pd))
        && dict_lookup(pd, lit("Kids")) matches Some(CosValue::Array(ks)) && kids_copy(nd.objects@, ks, store, picked, node))
}

/// The pages a document's tree walk gives are stored leaf pages.
pub(crate) proof fn lemma_document_leaves(doc: &Document)
    ensures
        match document_pages(doc) {
            Some(p) => forall|k: int| 0 <= k < p.len() ==> is_leaf(doc.objects@, #[trigger] p[k]),
            None => true,
        },
{
    match doc.catalog_id_spec() {
        Some(cid) => match store_find(doc.objects@, cid) {
            Some(CosValue::Dict(c)) => match dict_lookup(c, lit("Pages")) {
                Some(CosValue::Ref(n, g)) => lemma_collected_leaves(doc.objects@, ObjectId { object_number: n, generation: g }, 0),
                _ => {}
            },
            _ => {}
        },
        None => {}
    }
}

/// Picking among leaf pages gives leaf pages.
pub(crate) proof fn lemma_picked_leaves(store: Seq<(ObjectId, CosValue)>, p: Seq<ObjectId>, idx: Seq<usize>)
    requires forall|k: int| 0 <= k < p.len() ==> is_leaf(store, #[trigger] p[k]),
    ensures forall|j: int| 0 <= j < picked_pages(p, idx).len() ==> is_leaf(store, #[trigger] picked_pages(p, idx)[j]),
    decreases idx.len(),
{
    if idx.len() > 0 {
        lemma_picked_leaves(store, p, idx.drop_last());
        let a = picked_pages(p, idx.drop_last());
        let b: Seq<ObjectId> = if idx.last() < p.len() { seq![p[idx.last() as int]] } else { Seq::empty() };
        assert forall|j: int| 0 <= j < (a + b).len() implies is_leaf(store, #[trigger] (a + b)[j]) by {
            if j < a.len() {
                assert((a + b)[j] == a[j]);
            } else {
                assert((a + b)[j] == p[idx.last() as int]);
            }
        }
    }
}

/// The pages of an extracted document: one per picked page (the copies the
/// new page-tree node lists), while the object numbers last.
pub proof fn lemma_extracted_pages(nd: Document, store: Seq<(ObjectId, CosValue)>, picked: Seq<ObjectId>)
    requires
        extracted(nd, store, picked),
        picked.len() + 2 <= u32::MAX,
        forall|j: int| 0 <= j < picked.len() ==> is_leaf(store, #[trigger] picked[j]),
    ensures
        (document_pages(&nd) matches Some(q) && q.len() == picked.len()),
{
    let node = ObjectId { object_number: 2, generation: 0 };
    let s = nd.objects@;
    let pd = store_find(s, node)->Some_0->Dict_0;
    let ks = dict_lookup(pd, lit("Kids"))->Some_0->Array_0;
    assert forall|i: int| 0 <= i < ks.len() implies is_leaf_ref(s, #[trigger] ks[i]) by {
        assert(is_leaf(store, picked[i]));
        lemma_parent_keeps_leaf(store_find(store, picked[i]), node);
    }
    reveal_strlit("Pages");
    assert(name_of(dict_lookup(pd, lit("Type"))) == Some(lit("Pages")));
    assert(flat_node(s, node));
    lemma_flat_pages(s, node, ks);
    reveal_strlit("Type");
    vstd::string::is_ascii_spec_bytes("Type");
    vstd::string::is_ascii_spec_bytes("Pages");
    assert(lit("Type")[0] != lit("Pages")[0]);
    crate::cos::lemma_lookup_insert(dict_insert(Seq::empty(), lit("Type"), CosValue::Name(lit("Catalog"))),
        lit("Pages"), CosValue::Ref(2, 0), lit("Pages"));
    assert(nd.catalog_id_spec() == Some(ObjectId { object_number: 1, generation: 0 }));
    assert(dict_lookup(catalog_entries(node), lit("Pages")) == Some(CosValue::Ref(2, 0)));
}

fn in_use() -> (e: XRefEntry)
    ensures e == (XRefEntry::InUse { offset: 0, generation: 0 }),
{
    XRefEntry::InUse { offset: 0, generation: 0 }
}

/// A new document holding the pages at `page_indices` (indices past the
/// last page are skipped): a fresh catalog and page-tree node, a copy of each
/// page dictionary with `/Parent` set to the new node, and a copy of every
/// object of `doc` whose id is not taken. An error when `doc`'s page tree
/// cannot be walked; `doc` is left as it was.
pub fn extract_pages(doc: &mut Document, page_indices: &[usize]) -> (r: PdfResult<Document>)
    requires
        store_max(old(doc).objects@) < u32::MAX,
    ensures
        final(doc).objects@ == old(doc).objects@,
        final(doc).xref.trailer@ == old(doc).xref.trailer@,
        r is Ok <==> document_pages(old(doc)) is Some,
        match r {
            Ok(nd) => has_page_node(nd, picked_pages(document_pages(old(doc))->Some_0, page_indices@).len() as int)
                && extracted(nd, old(doc).objects@, picked_pages(document_pages(old(doc))->Some_0, page_indices@))
                && (picked_pages(document_pages(old(doc))->Some_0, page_indices@).len() + 2 <= u32::MAX ==>
                    (document_pages(&nd) matches Some(q) && q.len() == picked_pages(document_pages(old(doc))->Some_0, page_indices@).len())),
            Err(_) => true,
        },
{
    let mut new_doc = Document::empty();
    let catalog_id = new_doc.allocate_object_id();
    let pages_id = new_doc.allocate_object_id();
    assert(catalog_id.object_number == 1 && pages_id.object_number == 2);
    let ghost t00 = new_doc.xref.trailer@;
    new_doc.xref.trailer.insert(CosName::root(), CosObject::Reference(catalog_id));
    proof { crate::cos::lemma_lookup_insert(t00, lit("Root"), CosValue::Ref(catalog_id.object_number, catalog_id.generation), lit("Root")); }
    let mut catalog = CosDictionary::new();
    catalog.insert(CosName::type_key(), CosObject::Name(CosName::named("Catalog")));
    catalog.insert(CosName::pages(), CosObject::Reference(pages_id));
    proof { assert(catalog@ == catalog_entries(pages_id)); }
    new_doc.insert_object(catalog_id, CosObject::Dictionary(catalog));
    new_doc.xref.insert_if_absent(catalog_id, in_use());

    let tree = match doc.pages() {
        Ok(t) => t,
        Err(e) => return Err(e),
    };
    let ghost p = ids_of(tree.pages@);
    let ghost store = doc.objects@;
    let mut kids: Vec<CosObject> = Vec::new();
    let mut k: usize = 0;
    proof {
        reveal_strlit("Pages");
        reveal_strlit("Type");
        reveal_strlit("Catalog");
        assert(ids_at_most(new_doc, 2)) by {
            assert forall|q: ObjectId| #[trigger] store_find(new_doc.objects@, q) is Some implies q.object_number <= 2 by {
                if q != catalog_id { assert(store_find(new_doc.objects@, q) is None); }
            }
        }
    }
    while k < page_indices.len()
        invariant
            k <= page_indices@.len(),
            p == ids_of(tree.pages@),
            pages_from_store(tree.pages@, store),
            store == doc.objects@,
            kids@.len() == picked_pages(p, page_indices@.take(k as int)).len(),
            kids@.len() <= k,
            pages_id == (ObjectId { object_number: 2, generation: 0 }),
            catalog_id == (ObjectId { object_number: 1, generation: 0 }),
            2 <= new_doc.last_allocated,
            ids_at_most(new_doc, new_doc.last_allocated as int),
            store_find(new_doc.objects@, pages_id) is None,
            kids@.len() + 2 <= u32::MAX ==> {
                &&& new_doc.last_allocated == kids@.len() + 2
                &&& kids_copy(new_doc.objects@, crate::cos::view_objs(kids@), store, picked_pages(p, page_indices@.take(k as int)), pages_id)
            },
            catalog_id != pages_id,
            catalog_id.object_number < u32::MAX,
            store_find(new_doc.objects@, catalog_id) == Some(CosValue::Dict(catalog_entries(pages_id))),
            dict_lookup(new_doc.xref.trailer@, lit("Root")) == Some(CosValue::Ref(catalog_id.object_number, catalog_id.generation)),
        decreases page_indices.len() - k,
    {
        proof { assert(page_indices@.take(k + 1).drop_last() =~= page_indices@.take(k as int)); }
        let idx = page_indices[k];
        let ghost pk = picked_pages(p, page_indices@.take(k as int));
        let ghost kv0 = crate::cos::view_objs(kids@);
        proof { crate::cos::lemma_view_objs(kids@); }
        match tree.get(idx) {
            Some(page) => {
                let mut d = page.dict.deep_clone();
                let ghost before = new_doc;
                let new_pid = new_doc.allocate_object_id();
                d.insert(CosName::parent(), CosObject::Reference(pages_id));
                let ghost dv = d@;
                new_doc.insert_object(new_pid, CosObject::Dictionary(d));
                new_doc.xref.insert_if_absent(new_pid, in_use());
                let ghost prev = kids@;
                kids.push(CosObject::Reference(new_pid));
                proof {
                    crate::cos::lemma_view_objs(kids@);
                    assert(new_pid.object_number == new_doc.last_allocated);
                    assert forall|q: ObjectId| #[trigger] store_find(new_doc.objects@, q) is Some implies q.object_number <= new_doc.last_allocated by {
                        if q != new_pid {
                            assert(store_find(before.objects@, q) is Some);
                            assert(q.object_number <= before.last_allocated);
                        }
                    }
                    assert forall|a: int| 0 <= a < new_doc.xref@.len() implies (#[trigger] new_doc.xref@[a]).0.object_number <= new_doc.last_allocated by {
                        if a < before.xref@.len() {
                            assert(new_doc.xref@[a] == before.xref@[a]);
                            assert(before.xref@[a].0.object_number <= before.last_allocated);
                        } else {
                            assert(new_doc.xref@[a].0 == new_pid);
                        }
                    }
                    assert(store == doc.objects@);
                    assert(idx < p.len());
                    assert(store_find(store, p[idx as int]) == Some(CosValue::Dict(page.dict@)));
                    assert(picked_pages(p, page_indices@.take(k + 1)) == pk + seq![p[idx as int]]);
                    if kids@.len() + 2 <= u32::MAX {
                        let kv = crate::cos::view_objs(kids@);
                        let pk2 = pk + seq![p[idx as int]];
                        assert(new_pid.object_number == prev.len() + 3);
                        assert(kv[prev.len() as int] == CosValue::Ref(new_pid.object_number, new_pid.generation));
                        assert forall|j: int| 0 <= j < kv.len() implies (#[trigger] kv[j] matches CosValue::Ref(n, g)
                            && store_find(store, pk2[j]) is Some
                            && store_find(new_doc.objects@, ObjectId { object_number: n, generation: g }) == with_parent(store_find(store, pk2[j]), pages_id)) by {
                            if j < prev.len() {
                                assert(kids@[j] == prev[j]);
                                assert(kv[j] == kv0[j]);
                                assert(pk2[j] == pk[j]);
                                let (n, g) = (kv0[j]->Ref_0, kv0[j]->Ref_1);
                                let qj = ObjectId { object_number: n, generation: g };
                                assert(store_find(before.objects@, qj) is Some);
                                assert(qj.object_number <= before.last_allocated);
                                assert(qj != new_pid);
                            } else {
                                assert(j == prev.len());
                                assert(pk2[j] == p[idx as int]);
                            }
                        }
                    }
                }
            }
            None => {
                proof { assert(picked_pages(p, page_indices@.take(k + 1)) =~= pk); }
            }
        }
        k += 1;
    }
    proof { assert(page_indices@.take(page_indices@.len() as int) =~= page_indices@); }
    let ghost picked = picked_pages(p, page_indices@);
    let ghost kvs = crate::cos::view_objs(kids@);
    proof { crate::cos::lemma_view_objs(kids@); }

    let count = kids.len() as i64;
    let nkids = kids.len();
    let mut pages = CosDictionary::new();
    pages.insert(CosName::type_key(), CosObject::Name(CosName::named("Pages")));
    let ghost d1 = pages@;
    pages.insert(CosName::count(), CosObject::Integer(count));
    let ghost d2 = pages@;
    let ghost kv = CosValue::Array(crate::cos::view_objs(kids@));
    proof { crate::cos::lemma_view_objs(kids@); }
    pages.insert(CosName::kids(), CosObject::Array(kids));
    proof {
        reveal_strlit("Count");
        reveal_strlit("Kids");
        vstd::string::is_ascii_spec_bytes("Count");
        vstd::string::is_ascii_spec_bytes("Kids");
        assert(lit("Count").len() != lit("Kids").len());
        crate::cos::lemma_lookup_insert(d1, lit("Count"), CosValue::Integer(count as int), lit("Count"));
        crate::cos::lemma_lookup_insert(d2, lit("Kids"), kv, lit("Count"));
        crate::cos::lemma_lookup_insert(d2, lit("Kids"), kv, lit("Kids"));
        vstd::string::is_ascii_spec_bytes("Type");
        assert(lit("Count").len() != lit("Type").len());
        assert(lit("Kids")[0] != lit("Type")[0]);
        crate::cos::lemma_lookup_insert(d1, lit("Count"), CosValue::Integer(count as int), lit("Type"));
        crate::cos::lemma_lookup_insert(d2, lit("Kids"), kv, lit("Type"));
        assert(dict_lookup(pages@, lit("Type")) == Some(CosValue::Name(lit("Pages"))));
        assert(kv->Array_0.len() == nkids);
        assert(page_node_ok(Some(CosValue::Dict(pages@)), nkids as int));
    }
    let ghost nodev = pages@;
    let ghost before_node = new_doc.objects@;
    new_doc.insert_object(pages_id, CosObject::Dictionary(pages));
    new_doc.xref.insert_if_absent(pages_id, in_use());
    proof {
        assert(dict_lookup(nodev, lit("Kids")) == Some(kv));
        assert(kv->Array_0 == kvs);
        if picked.len() + 2 <= u32::MAX {
            assert forall|j: int| 0 <= j < kvs.len() implies (#[trigger] kvs[j] matches CosValue::Ref(n, g)
                && store_find(store, picked[j]) is Some
                && store_find(new_doc.objects@, ObjectId { object_number: n, generation: g }) == with_parent(store_find(store, picked[j]), pages_id)) by {
                let (n, g) = (kvs[j]->Ref_0, kvs[j]->Ref_1);
                let qj = ObjectId { object_number: n, generation: g };
                assert(store_find(before_node, qj) is Some);
                assert(qj != pages_id);
            }
        }
    }
    let ghost after_node = new_doc.objects@;

    let entries = doc.objects.entries();
    let mut i: usize = 0;
    while i < entries.len()
        invariant
            i <= entries@.len(),
            store_find(new_doc.objects@, catalog_id) == Some(CosValue::Dict(catalog_entries(pages_id))),
            page_node_ok(store_find(new_doc.objects@, pages_id), nkids as int),
            dict_lookup(new_doc.xref.trailer@, lit("Root")) == Some(CosValue::Ref(catalog_id.object_number, catalog_id.generation)),
            forall|q: ObjectId| #[trigger] store_find(after_node, q) is Some ==> store_find(new_doc.objects@, q) == store_find(after_node, q),
        decreases entries.len() - i,
    {
        let (id, obj) = &entries[i];
        let taken = match new_doc.objects.get(id) {
            Some(_) => true,
            None => false,
        };
        if !taken {
            new_doc.insert_object(*id, obj.deep_clone());
            new_doc.xref.insert_if_absent(*id, in_use());
        }
        i += 1;
    }
    let size = (new_doc.objects.max_object_number() as i64) + 1;
    let ghost t0 = new_doc.xref.trailer@;
    new_doc.xref.trailer.insert(CosName::named("Size"), CosObject::Integer(size));
    proof {
        crate::cos::lemma_lookup_insert(t0, lit("Size"), CosValue::Integer(size as int), lit("Root"));
        reveal_strlit("Size");
        reveal_strlit("Root");
        vstd::string::is_ascii_spec_bytes("Size");
        vstd::string::is_ascii_spec_bytes("Root");
        assert(lit("Size")[0] != lit("Root")[0]);
        assert(has_page_node(new_doc, nkids as int));
        assert(store_find(new_doc.objects@, pages_id) == Some(CosValue::Dict(nodev)));
        if picked.len() + 2 <= u32::MAX {
            assert forall|j: int| 0 <= j < kvs.len() implies (#[trigger] kvs[j] matches CosValue::Ref(n, g)
                && store_find(store, picked[j]) is Some
                && store_find(new_doc.objects@, ObjectId { object_number: n, generation: g }) == with_parent(store_find(store, picked[j]), pages_id)) by {
                let (n, g) = (kvs[j]->Ref_0, kvs[j]->Ref_1);
                let qj = ObjectId { object_number: n, generation: g };
                assert(store_find(after_node, qj) is Some);
            }
            assert(kids_copy(new_doc.objects@, kvs, store, picked, pages_id));
        }
        assert(extracted(new_doc, store, picked));
        if picked.len() + 2 <= u32::MAX {
            lemma_document_leaves(&*doc);
            lemma_picked_leaves(store, p, page_indices@);
            lemma_extracted_pages(new_doc, store, picked);
        }
    }
    Ok(new_doc)
}

} // verus!

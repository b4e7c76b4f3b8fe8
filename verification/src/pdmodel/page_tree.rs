//! The page tree (PDF 32000 §7.7.3) walked into the ordered list of its
//! leaf pages.

use vstd::prelude::*;
use vstd::std_specs::iter::IteratorSpec;
use crate::bytes::{lit, eq_str};
use crate::cos::{CosDictionary, CosName, CosObject, CosValue, ObjectId, dict_lookup, view_objs, lemma_view_objs};
use crate::document::{Document, ObjectStore, PdfError, store_find};
use super::page::Page;

verus! {

broadcast use lemma_view_objs;

/// Outcome of walking a page tree.
pub enum PagesOut {
    /// The leaf pages, in order.
    Pages(Seq<ObjectId>),
    /// A node is not in the store.
    NotFound(ObjectId),
    /// A node is malformed or the tree is deeper than 64 levels.
    Malformed,
}

/// A name value's bytes.
pub open spec fn name_of(v: Option<CosValue>) -> Option<Seq<u8>> {
    match v {
        Some(CosValue::Name(n)) => Some(n),
        _ => None,
    }
}

/// The leaf pages under `node`, at `depth`: a node typed `/Page` is a leaf;
/// one typed `/Pages`, or without a name for `/Type`, lists its `/Kids`.
pub open spec fn collect_spec(store: Seq<(ObjectId, CosValue)>, node: ObjectId, depth: int) -> PagesOut
    decreases 65 - depth, 1int, 0int,
{
    if depth > 64 || depth < 0 {
        PagesOut::Malformed
    } else {
        match store_find(store, node) {
            None => PagesOut::NotFound(node),
            Some(CosValue::Dict(d)) => {
                let t = name_of(dict_lookup(d, lit("Type")));
                if t == Some(lit("Page")) {
                    PagesOut::Pages(seq![node])
                } else if t is None || t == Some(lit("Pages")) {
                    match dict_lookup(d, lit("Kids")) {
                        Some(CosValue::Array(kids)) => collect_kids(store, kids, 0, depth, Seq::empty()),
                        _ => PagesOut::Malformed,
                    }
                } else {
                    PagesOut::Malformed
                }
            }
            Some(_) => PagesOut::Malformed,
        }
    }
}

/// The leaf pages under `kids[i..]`, appended to `acc`.
pub open spec fn collect_kids(store: Seq<(ObjectId, CosValue)>, kids: Seq<CosValue>, i: int, depth: int, acc: Seq<ObjectId>) -> PagesOut
    decreases 65 - depth, 0int, kids.len() - i,
{
    if depth > 64 || depth < 0 || i < 0 || i >= kids.len() {
        PagesOut::Pages(acc)
    } else {
        match kids[i] {
            CosValue::Ref(n, g) => match collect_spec(store, ObjectId { object_number: n, generation: g }, depth + 1) {
                PagesOut::Pages(p) => collect_kids(store, kids, i + 1, depth, acc + p),
                other => other,
            },
            _ => PagesOut::Malformed,
        }
    }
}

/// The ids of collected pages.
pub open spec fn ids_of<'a>(s: Seq<(ObjectId, &'a CosDictionary)>) -> Seq<ObjectId> {
    Seq::new(s.len(), |i: int| s[i].0)
}

/// Every collected page's dictionary is what the store holds for its id.
pub open spec fn pages_from_store<'a>(s: Seq<(ObjectId, &'a CosDictionary)>, store: Seq<(ObjectId, CosValue)>) -> bool {
    forall|i: int| 0 <= i < s.len() ==> store_find(store, (#[trigger] s[i]).0) == Some(CosValue::Dict(s[i].1@))
}

/// The result matches the outcome of a walk.
pub open spec fn walk_result<'a>(r: Result<(), PdfError>, o: PagesOut, before: Seq<ObjectId>, after: Seq<ObjectId>) -> bool {
    match o {
        PagesOut::Pages(p) => r is Ok && after == before + p,
        PagesOut::NotFound(id) => r matches Err(PdfError::Xref { object_id: x }) && x == Some(id),
        PagesOut::Malformed => r matches Err(PdfError::Parse { .. }),
    }
}

fn collect_pages<'a>(node_id: ObjectId, store: &'a ObjectStore, out: &mut Vec<(ObjectId, &'a CosDictionary)>, depth: usize)
    -> (r: Result<(), PdfError>)
    requires pages_from_store(old(out)@, store@),
    ensures
        walk_result(r, collect_spec(store@, node_id, depth as int), ids_of(old(out)@), ids_of(final(out)@)),
        pages_from_store(final(out)@, store@),
    decreases 65 - depth, 1int, 0int,
{
    if depth > 64 {
        return Err(PdfError::parse("page tree depth exceeds maximum (64), possible cycle", None));
    }
    let obj = match store.get(&node_id) {
        Some(o) => o,
        None => return Err(PdfError::Xref { object_id: Some(node_id) }),
    };
    let dict = match obj {
        CosObject::Dictionary(d) => d,
        _ => return Err(PdfError::parse("page tree node is not a dictionary", None)),
    };
    let t = dict.get_name(&CosName::type_key());
    let is_page = match t { Some(n) => eq_str(n.as_bytes(), "Page"), None => false };
    let is_pages = match t { Some(n) => eq_str(n.as_bytes(), "Pages"), None => true };
    if is_page {
        let ghost before = out@;
        out.push((node_id, dict));
        proof {
            assert(ids_of(out@) =~= ids_of(before) + seq![node_id]);
        }
        Ok(())
    } else if is_pages {
        let kids = match dict.get(&CosName::kids()) {
            Some(CosObject::Array(k)) => k,
            _ => return Err(PdfError::parse("Pages node missing /Kids array", None)),
        };
        collect_kid_list(kids, store, out, depth)
    } else {
        Err(PdfError::parse("unexpected /Type in page tree", None))
    }
}

fn collect_kid_list<'a>(kids: &'a Vec<CosObject>, store: &'a ObjectStore, out: &mut Vec<(ObjectId, &'a CosDictionary)>, depth: usize)
    -> (r: Result<(), PdfError>)
    requires pages_from_store(old(out)@, store@), depth <= 64,
    ensures
        walk_result(r, collect_kids(store@, view_objs(kids@), 0, depth as int, Seq::empty()), ids_of(old(out)@), ids_of(final(out)@)),
        pages_from_store(final(out)@, store@),
    decreases 65 - depth, 0int, kids@.len(),
{
    let ghost kv = view_objs(kids@);
    let ghost start = ids_of(out@);
    proof {
        assert(ids_of(out@).subrange(start.len() as int, ids_of(out@).len() as int) =~= Seq::<ObjectId>::empty());
        assert(ids_of(out@).subrange(0, start.len() as int) =~= start);
    }
    let mut i: usize = 0;
    while i < kids.len()
        invariant
            i <= kids@.len(),
            depth <= 64,
            kv == view_objs(kids@),
            kv.len() == kids@.len(),
            pages_from_store(out@, store@),
            ({
                let acc = ids_of(out@).subrange(start.len() as int, ids_of(out@).len() as int);
                &&& ids_of(out@).len() >= start.len()
                &&& ids_of(out@).subrange(0, start.len() as int) == start
                &&& collect_kids(store@, kv, i as int, depth as int, acc) == collect_kids(store@, kv, 0, depth as int, Seq::empty())
            }),
        decreases kids@.len() - i,
    {
        let ghost acc = ids_of(out@).subrange(start.len() as int, ids_of(out@).len() as int);
        let kid_ref = match &kids[i] {
            CosObject::Reference(id) => *id,
            _ => return Err(PdfError::parse("Kids array entry is not an indirect reference", None)),
        };
        let ghost before = out@;
        match collect_pages(kid_ref, store, out, depth + 1) {
            Ok(()) => {
                proof {
                    let p = collect_spec(store@, kid_ref, depth + 1)->Pages_0;
                    let acc2 = ids_of(out@).subrange(start.len() as int, ids_of(out@).len() as int);
                    assert(ids_of(out@) == ids_of(before) + p);
                    assert(acc2 =~= acc + p);
                    assert(ids_of(out@).subrange(0, start.len() as int) =~= start);
                }
            }
            Err(e) => {
                return Err(e);
            }
        }
        i += 1;
    }
    proof {
        let acc = ids_of(out@).subrange(start.len() as int, ids_of(out@).len() as int);
        assert(ids_of(out@) =~= start + acc);
    }
    Ok(())
}

/// The leaf pages of a document, in order.
pub struct PageTree<'a> {
    pub pages: Vec<(ObjectId, &'a CosDictionary)>,
}

impl<'a> PageTree<'a> {
    /// Walks the page tree from the catalog's `/Pages` reference, resolving
    /// nodes through `store`.
    pub fn new(catalog: &'a CosDictionary, store: &'a ObjectStore) -> (r: Result<Self, PdfError>)
        ensures
            match dict_lookup(catalog@, lit("Pages")) {
                Some(CosValue::Ref(n, g)) => match collect_spec(store@, ObjectId { object_number: n, generation: g }, 0) {
                    PagesOut::Pages(p) => r is Ok && ids_of(r->Ok_0.pages@) == p && pages_from_store(r->Ok_0.pages@, store@),
                    PagesOut::NotFound(id) => r matches Err(PdfError::Xref { object_id: x }) && x == Some(id),
                    PagesOut::Malformed => r matches Err(PdfError::Parse { .. }),
                },
                _ => r matches Err(PdfError::Parse { .. }),
            },
    {
        let root = match catalog.get(&CosName::pages()) {
            Some(CosObject::Reference(id)) => *id,
            _ => return Err(PdfError::parse("catalog missing /Pages reference", None)),
        };
        let mut pages: Vec<(ObjectId, &'a CosDictionary)> = Vec::new();
        proof { assert(ids_of(pages@) =~= Seq::<ObjectId>::empty()); }
        match collect_pages(root, store, &mut pages, 0) {
            Ok(()) => {
                proof { assert(ids_of(pages@) =~= Seq::<ObjectId>::empty() + collect_spec(store@, root, 0)->Pages_0); }
                Ok(PageTree { pages })
            }
            Err(e) => Err(e),
        }
    }

    /// Number of pages.
    pub fn count(&self) -> (r: usize)
        ensures r == self.pages@.len(),
    {
        self.pages.len()
    }

    /// `true` when there is no page.
    pub fn is_empty(&self) -> (r: bool)
        ensures r == (self.pages@.len() == 0),
    {
        self.pages.len() == 0
    }

    /// The page at a 0-based index.
    pub fn get(&self, index: usize) -> (r: Option<Page<'a>>)
        ensures
            index < self.pages@.len() ==> r is Some && r->Some_0.dict == self.pages@[index as int].1
                && r->Some_0.index == index,
            index >= self.pages@.len() ==> r is None,
    {
        if index < self.pages.len() {
            Some(Page::new(self.pages[index].1, index))
        } else {
            None
        }
    }

    /// The pages in order.
    pub fn iter(&self) -> (r: std::vec::IntoIter<Page<'a>>)
        ensures
            r.remaining().len() == self.pages@.len(),
            forall|i: int| 0 <= i < self.pages@.len()
                ==> (#[trigger] r.remaining()[i]).dict == self.pages@[i].1 && r.remaining()[i].index == i,
    {
        let v = self.pages();
        proof { broadcast use vstd::std_specs::vec::axiom_spec_into_iter; }
        v.into_iter()
    }

    /// The pages in order, with their ids.
    pub fn pages(&self) -> (r: Vec<Page<'a>>)
        ensures r@.len() == self.pages@.len(),
            forall|i: int| 0 <= i < r@.len() ==> (#[trigger] r@[i]).dict == self.pages@[i].1 && r@[i].index == i,
    {
        let mut v: Vec<Page<'a>> = Vec::new();
        let mut i: usize = 0;
        while i < self.pages.len()
            invariant i <= self.pages@.len(), v@.len() == i,
                forall|k: int| 0 <= k < i ==> (#[trigger] v@[k]).dict == self.pages@[k].1 && v@[k].index == k,
            decreases self.pages.len() - i,
        {
            v.push(Page::new(self.pages[i].1, i));
            i += 1;
        }
        v
    }
}

/// The leaf pages of a document: from its catalog's `/Pages` tree; `None`
/// when there is no catalog or the tree cannot be walked.
pub open spec fn document_pages(doc: &Document) -> Option<Seq<ObjectId>> {
    match doc.catalog_id_spec() {
        Some(cid) => match store_find(doc.objects@, cid) {
            Some(CosValue::Dict(c)) => match dict_lookup(c, lit("Pages")) {
                Some(CosValue::Ref(n, g)) => match collect_spec(doc.objects@, ObjectId { object_number: n, generation: g }, 0) {
                    PagesOut::Pages(p) => Some(p),
                    _ => None,
                },
                _ => None,
            },
            _ => None,
        },
        None => None,
    }
}

impl Document {
    /// The page tree: walked from the catalog's `/Pages` reference.
    pub fn pages(&self) -> (r: Result<PageTree<'_>, PdfError>)
        ensures
            match document_pages(self) {
                Some(p) => r is Ok && ids_of(r->Ok_0.pages@) == p && pages_from_store(r->Ok_0.pages@, self.objects@),
                None => r is Err,
            },
    {
        let catalog = match self.catalog() {
            Some(c) => c,
            None => return Err(PdfError::parse("cannot resolve catalog dictionary", None)),
        };
        PageTree::new(catalog, &self.objects)
    }

    /// Number of pages; 0 when the page tree cannot be walked.
    pub fn page_count(&self) -> (r: usize)
        ensures
            match document_pages(self) {
                Some(p) => r == p.len(),
                None => r == 0,
            },
    {
        match self.pages() {
            Ok(t) => t.count(),
            Err(_) => 0,
        }
    }
}

} // verus!

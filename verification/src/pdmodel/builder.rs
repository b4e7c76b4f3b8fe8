//! A new one-page document: catalog 1, page tree 2 (offering Helvetica to
//! its pages) and one page 3 of a given size.

use vstd::prelude::*;
use crate::bytes::{clone_bytes, lit, str_bytes};
use crate::cos::{CosDictionary, CosName, CosObject, CosValue, ObjectId, dict_insert, dict_lookup, view_objs};
use crate::document::{Document, store_find};
use crate::pageops::extract::catalog_entries;
use crate::pageops::merge::{flat_node, is_leaf, is_leaf_ref, lemma_flat_pages, ref_ids};
use crate::pageops::watermark::helvetica_entries;
use crate::parser::xref::{XRefEntry, xref_find, xref_find_from};
use crate::pdmodel::page_tree::{document_pages, name_of};

verus! {

/// The page-tree node of a new document: one kid, `/Count 1`, and
/// resources offering Helvetica as `/Helvetica`.
pub open spec fn new_pages_entries(page: ObjectId) -> Seq<(Seq<u8>, CosValue)> {
    let fonts = dict_insert(Seq::empty(), lit("Helvetica"), CosValue::Dict(helvetica_entries()));
    let res = dict_insert(Seq::empty(), lit("Font"), CosValue::Dict(fonts));
    dict_insert(dict_insert(dict_insert(dict_insert(Seq::empty(),
        lit("Type"), CosValue::Name(lit("Pages"))),
        lit("Kids"), CosValue::Array(seq![CosValue::Ref(page.object_number, page.generation)])),
        lit("Count"), CosValue::Integer(1)),
        lit("Resources"), CosValue::Dict(res))
}

/// The page of a new document: `/Parent`, and `/MediaBox [0 0 w h]`.
pub open spec fn new_page_entries(parent: ObjectId, w: Seq<u8>, h: Seq<u8>) -> Seq<(Seq<u8>, CosValue)> {
    dict_insert(dict_insert(dict_insert(Seq::empty(),
        lit("Type"), CosValue::Name(lit("Page"))),
        lit("Parent"), CosValue::Ref(parent.object_number, parent.generation)),
        lit("MediaBox"), CosValue::Array(seq![CosValue::Real(lit("0")), CosValue::Real(lit("0")), CosValue::Real(w), CosValue::Real(h)]))
}

/// The trailer of a new document: `/Size 4` and `/Root 1 0 R`.
pub open spec fn new_trailer_entries() -> Seq<(Seq<u8>, CosValue)> {
    dict_insert(dict_insert(Seq::empty(), lit("Size"), CosValue::Integer(4)), lit("Root"), CosValue::Ref(1, 0))
}

fn in_use() -> (e: XRefEntry)
    ensures e == (XRefEntry::InUse { offset: 0, generation: 0 }),
{
    XRefEntry::InUse { offset: 0, generation: 0 }
}

/// A new document with one page whose `/MediaBox` is `[0 0 width height]`
/// (the sizes given as the text of real numbers): the catalog, the page
/// tree and the page as `new_pages_entries` and `new_page_entries` say,
/// each recorded as in use, and nothing else. Its page list is the page.
pub fn build_single_page(width: &[u8], height: &[u8]) -> (r: Document)
    ensures
        r.xref.trailer@ == new_trailer_entries(),
        store_find(r.objects@, ObjectId { object_number: 1, generation: 0 })
            == Some(CosValue::Dict(catalog_entries(ObjectId { object_number: 2, generation: 0 }))),
        store_find(r.objects@, ObjectId { object_number: 2, generation: 0 })
            == Some(CosValue::Dict(new_pages_entries(ObjectId { object_number: 3, generation: 0 }))),
        store_find(r.objects@, ObjectId { object_number: 3, generation: 0 })
            == Some(CosValue::Dict(new_page_entries(ObjectId { object_number: 2, generation: 0 }, width@, height@))),
        forall|q: ObjectId| q.generation != 0 || q.object_number < 1 || q.object_number > 3
            ==> #[trigger] store_find(r.objects@, q) is None,
        r.xref@ == seq![
            (ObjectId { object_number: 1, generation: 0 }, XRefEntry::InUse { offset: 0, generation: 0 }),
            (ObjectId { object_number: 2, generation: 0 }, XRefEntry::InUse { offset: 0, generation: 0 }),
            (ObjectId { object_number: 3, generation: 0 }, XRefEntry::InUse { offset: 0, generation: 0 })],
        document_pages(&r) == Some(seq![ObjectId { object_number: 3, generation: 0 }]),
{
    let mut doc = Document::empty();
    let catalog_id = ObjectId::new(1, 0);
    let pages_id = ObjectId::new(2, 0);
    let page_id = ObjectId::new(3, 0);

    doc.xref.trailer.insert(CosName::named("Size"), CosObject::Integer(4));
    doc.xref.trailer.insert(CosName::root(), CosObject::Reference(catalog_id));
    proof { assert(doc.xref.trailer@ =~= new_trailer_entries()); }

    let mut catalog = CosDictionary::new();
    catalog.insert(CosName::type_key(), CosObject::Name(CosName::named("Catalog")));
    catalog.insert(CosName::pages(), CosObject::Reference(pages_id));
    proof { assert(catalog@ == catalog_entries(pages_id)); }
    doc.insert_object(catalog_id, CosObject::Dictionary(catalog));

    let mut pages = CosDictionary::new();
    pages.insert(CosName::type_key(), CosObject::Name(CosName::named("Pages")));
    let kids = vec![CosObject::Reference(page_id)];
    proof {
        crate::cos::lemma_view_objs(kids@);
        assert(view_objs(kids@) =~= seq![CosValue::Ref(3, 0)]);
    }
    pages.insert(CosName::kids(), CosObject::Array(kids));
    pages.insert(CosName::count(), CosObject::Integer(1));
    let mut helvetica = CosDictionary::new();
    helvetica.insert(CosName::type_key(), CosObject::Name(CosName::named("Font")));
    helvetica.insert(CosName::named("Subtype"), CosObject::Name(CosName::named("Type1")));
    helvetica.insert(CosName::named("BaseFont"), CosObject::Name(CosName::named("Helvetica")));
    let mut fonts = CosDictionary::new();
    fonts.insert(CosName::named("Helvetica"), CosObject::Dictionary(helvetica));
    let mut resources = CosDictionary::new();
    resources.insert(CosName::named("Font"), CosObject::Dictionary(fonts));
    pages.insert(CosName::resources(), CosObject::Dictionary(resources));
    proof { assert(pages@ == new_pages_entries(page_id)); }
    doc.insert_object(pages_id, CosObject::Dictionary(pages));

    let mut page = CosDictionary::new();
    page.insert(CosName::type_key(), CosObject::Name(CosName::named("Page")));
    page.insert(CosName::parent(), CosObject::Reference(pages_id));
    let mbox = vec![
        CosObject::Real(str_bytes("0")),
        CosObject::Real(str_bytes("0")),
        CosObject::Real(clone_bytes(width)),
        CosObject::Real(clone_bytes(height)),
    ];
    proof {
        crate::cos::lemma_view_objs(mbox@);
        assert(view_objs(mbox@) =~= seq![CosValue::Real(lit("0")), CosValue::Real(lit("0")), CosValue::Real(width@), CosValue::Real(height@)]);
    }
    page.insert(CosName::named("MediaBox"), CosObject::Array(mbox));
    proof { assert(page@ == new_page_entries(pages_id, width@, height@)); }
    doc.insert_object(page_id, CosObject::Dictionary(page));

    let ghost e = XRefEntry::InUse { offset: 0, generation: 0 };
    let ghost x0 = doc.xref@;
    assert(xref_find(x0, catalog_id) is None);
    doc.xref.insert_if_absent(catalog_id, in_use());
    let ghost x1 = doc.xref@;
    assert(x1 =~= seq![(catalog_id, e)]);
    assert(xref_find_from(x1, pages_id, 1) is None);
    assert(xref_find(x1, pages_id) is None);
    doc.xref.insert_if_absent(pages_id, in_use());
    let ghost x2 = doc.xref@;
    assert(x2 =~= seq![(catalog_id, e), (pages_id, e)]);
    assert(xref_find_from(x2, page_id, 2) is None);
    assert(xref_find_from(x2, page_id, 1) is None);
    assert(xref_find(x2, page_id) is None);
    doc.xref.insert_if_absent(page_id, in_use());
    proof {
        assert(doc.xref@ =~= seq![(catalog_id, e), (pages_id, e), (page_id, e)]);
        lemma_new_doc_pages(doc, width@, height@);
    }
    doc
}

/// The page list of a new document is its one page.
proof fn lemma_new_doc_pages(doc: Document, w: Seq<u8>, h: Seq<u8>)
    requires
        doc.xref.trailer@ == new_trailer_entries(),
        store_find(doc.objects@, ObjectId { object_number: 1, generation: 0 })
            == Some(CosValue::Dict(catalog_entries(ObjectId { object_number: 2, generation: 0 }))),
        store_find(doc.objects@, ObjectId { object_number: 2, generation: 0 })
            == Some(CosValue::Dict(new_pages_entries(ObjectId { object_number: 3, generation: 0 }))),
        store_find(doc.objects@, ObjectId { object_number: 3, generation: 0 })
            == Some(CosValue::Dict(new_page_entries(ObjectId { object_number: 2, generation: 0 }, w, h))),
    ensures
        document_pages(&doc) == Some(seq![ObjectId { object_number: 3, generation: 0 }]),
{
    let node = ObjectId { object_number: 2, generation: 0 };
    let page = ObjectId { object_number: 3, generation: 0 };
    let s = doc.objects@;
    reveal_strlit("Size");
    reveal_strlit("Root");
    reveal_strlit("Type");
    reveal_strlit("Pages");
    reveal_strlit("Page");
    reveal_strlit("Kids");
    reveal_strlit("Count");
    reveal_strlit("Resources");
    reveal_strlit("Parent");
    reveal_strlit("MediaBox");
    vstd::string::is_ascii_spec_bytes("Size");
    vstd::string::is_ascii_spec_bytes("Root");
    vstd::string::is_ascii_spec_bytes("Type");
    vstd::string::is_ascii_spec_bytes("Pages");
    vstd::string::is_ascii_spec_bytes("Page");
    vstd::string::is_ascii_spec_bytes("Kids");
    vstd::string::is_ascii_spec_bytes("Count");
    vstd::string::is_ascii_spec_bytes("Resources");
    vstd::string::is_ascii_spec_bytes("Parent");
    vstd::string::is_ascii_spec_bytes("MediaBox");
    assert(lit("Root")[0] != lit("Size")[0]);
    crate::cos::lemma_lookup_insert(dict_insert(Seq::empty(), lit("Size"), CosValue::Integer(4)), lit("Root"), CosValue::Ref(1, 0), lit("Root"));
    assert(doc.catalog_id_spec() == Some(ObjectId { object_number: 1, generation: 0 }));
    assert(lit("Type")[0] != lit("Pages")[0]);
    crate::cos::lemma_lookup_insert(dict_insert(Seq::empty(), lit("Type"), CosValue::Name(lit("Catalog"))),
        lit("Pages"), CosValue::Ref(2, 0), lit("Pages"));
    // the page-tree node
    let d0 = dict_insert(Seq::<(Seq<u8>, CosValue)>::empty(), lit("Type"), CosValue::Name(lit("Pages")));
    let ks = seq![CosValue::Ref(3, 0)];
    let d1 = dict_insert(d0, lit("Kids"), CosValue::Array(ks));
    let d2 = dict_insert(d1, lit("Count"), CosValue::Integer(1));
    let fonts = dict_insert(Seq::empty(), lit("Helvetica"), CosValue::Dict(helvetica_entries()));
    let res = dict_insert(Seq::empty(), lit("Font"), CosValue::Dict(fonts));
    assert(lit("Type")[0] != lit("Kids")[0]);
    assert(lit("Type")[0] != lit("Count")[0]);
    assert(lit("Type")[0] != lit("Resources")[0]);
    assert(lit("Kids")[0] != lit("Count")[0]);
    assert(lit("Kids")[0] != lit("Resources")[0]);
    crate::cos::lemma_lookup_insert(Seq::empty(), lit("Type"), CosValue::Name(lit("Pages")), lit("Type"));
    crate::cos::lemma_lookup_insert(d0, lit("Kids"), CosValue::Array(ks), lit("Type"));
    crate::cos::lemma_lookup_insert(d1, lit("Count"), CosValue::Integer(1), lit("Type"));
    crate::cos::lemma_lookup_insert(d2, lit("Resources"), CosValue::Dict(res), lit("Type"));
    crate::cos::lemma_lookup_insert(d0, lit("Kids"), CosValue::Array(ks), lit("Kids"));
    crate::cos::lemma_lookup_insert(d1, lit("Count"), CosValue::Integer(1), lit("Kids"));
    crate::cos::lemma_lookup_insert(d2, lit("Resources"), CosValue::Dict(res), lit("Kids"));
    let nd = new_pages_entries(page);
    assert(name_of(dict_lookup(nd, lit("Type"))) == Some(lit("Pages")));
    assert(dict_lookup(nd, lit("Kids")) == Some(CosValue::Array(ks)));
    // the page
    let p0 = dict_insert(Seq::<(Seq<u8>, CosValue)>::empty(), lit("Type"), CosValue::Name(lit("Page")));
    let p1 = dict_insert(p0, lit("Parent"), CosValue::Ref(2, 0));
    let mb = CosValue::Array(seq![CosValue::Real(lit("0")), CosValue::Real(lit("0")), CosValue::Real(w), CosValue::Real(h)]);
    assert(lit("Type")[0] != lit("Parent")[0]);
    assert(lit("Type")[0] != lit("MediaBox")[0]);
    crate::cos::lemma_lookup_insert(Seq::empty(), lit("Type"), CosValue::Name(lit("Page")), lit("Type"));
    crate::cos::lemma_lookup_insert(p0, lit("Parent"), CosValue::Ref(2, 0), lit("Type"));
    crate::cos::lemma_lookup_insert(p1, lit("MediaBox"), mb, lit("Type"));
    assert(is_leaf(s, page));
    assert(is_leaf_ref(s, ks[0]));
    assert(flat_node(s, node));
    lemma_flat_pages(s, node, ks);
    assert(ref_ids(ks) =~= seq![page]);
}

} // verus!

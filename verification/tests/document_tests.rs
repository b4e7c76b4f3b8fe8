use std::io::Write;
use std::sync::Arc;

use pdfbox::cos::{CosDictionary, CosName, CosObject, ObjectId};
use pdfbox::document::{Document, ObjectStore, PdfError};
use pdfbox::pdmodel::{Page, PageTree, Resources};

fn minimal_pdf() -> Vec<u8> {
    let mut pdf = b"%PDF-1.4\n".to_vec();
    let obj1_offset = pdf.len() as u64;
    pdf.extend_from_slice(b"1 0 obj\n<< /Type /Catalog /Pages 2 0 R >>\nendobj\n");
    let obj2_offset = pdf.len() as u64;
    pdf.extend_from_slice(b"2 0 obj\n<< /Type /Pages /Kids [] /Count 0 >>\nendobj\n");
    let xref_offset = pdf.len();
    let e1 = format!("{:010} 00000 n \r\n", obj1_offset);
    let e2 = format!("{:010} 00000 n \r\n", obj2_offset);
    pdf.extend_from_slice(b"xref\n");
    pdf.extend_from_slice(b"0 3\n");
    pdf.extend_from_slice(b"0000000000 65535 f \r\n");
    pdf.extend_from_slice(e1.as_bytes());
    pdf.extend_from_slice(e2.as_bytes());
    pdf.extend_from_slice(b"trailer\n<< /Size 3 /Root 1 0 R >>\n");
    pdf.extend_from_slice(format!("startxref\n{xref_offset}\n%%EOF\n").as_bytes());
    pdf
}

fn two_page_pdf() -> Vec<u8> {
    let mut pdf = b"%PDF-1.4\n".to_vec();
    let p1_off = pdf.len() as u64;
    pdf.extend_from_slice(b"3 0 obj\n<< /Type /Page /MediaBox [0 0 612 792] >>\nendobj\n");
    let p2_off = pdf.len() as u64;
    pdf.extend_from_slice(b"4 0 obj\n<< /Type /Page /MediaBox [0 0 595 842] >>\nendobj\n");
    let pages_off = pdf.len() as u64;
    pdf.extend_from_slice(b"2 0 obj\n<< /Type /Pages /Kids [3 0 R 4 0 R] /Count 2 >>\nendobj\n");
    let cat_off = pdf.len() as u64;
    pdf.extend_from_slice(b"1 0 obj\n<< /Type /Catalog /Pages 2 0 R >>\nendobj\n");
    let xref_off = pdf.len();
    pdf.extend_from_slice(b"xref\n0 5\n");
    pdf.extend_from_slice(b"0000000000 65535 f \r\n");
    for off in [cat_off, pages_off, p1_off, p2_off] {
        pdf.extend_from_slice(format!("{:010} 00000 n \r\n", off).as_bytes());
    }
    pdf.extend_from_slice(b"trailer\n<< /Size 5 /Root 1 0 R >>\n");
    pdf.extend_from_slice(format!("startxref\n{xref_off}\n%%EOF\n").as_bytes());
    pdf
}

#[test]
fn loads_bytes_with_pdf_header() {
    let result = Document::load_from_bytes(b"%PDF-1.7\n%%EOF\nstartxref\n0\n%%EOF\n");
    assert!(result.is_err());
}

#[test]
fn rejects_non_pdf_bytes() {
    let err = Document::load_from_bytes(b"not a pdf").unwrap_err();
    assert!(matches!(err, PdfError::Parse { .. }));
}

#[test]
fn loads_minimal_pdf() {
    let pdf = minimal_pdf();
    let doc = Document::load_from_bytes(&pdf).unwrap();
    assert_eq!(doc.source_len(), pdf.len());
}

#[test]
fn minimal_pdf_has_catalog_ref() {
    let pdf = minimal_pdf();
    let doc = Document::load_from_bytes(&pdf).unwrap();
    assert_eq!(doc.catalog_ref(), Some(ObjectId::new(1, 0)));
}

#[test]
fn minimal_pdf_catalog_resolved() {
    let pdf = minimal_pdf();
    let doc = Document::load_from_bytes(&pdf).unwrap();
    let catalog = doc.catalog();
    assert!(catalog.is_some(), "catalog should resolve");
    let cat = catalog.unwrap();
    assert_eq!(cat.get_name(&CosName::type_key()), Some(&CosName::new(b"Catalog".to_vec())));
}

#[test]
fn minimal_pdf_object_count() {
    let pdf = minimal_pdf();
    let doc = Document::load_from_bytes(&pdf).unwrap();
    assert!(doc.object_count() >= 2);
}

#[test]
fn trailer_has_size() {
    let pdf = minimal_pdf();
    let doc = Document::load_from_bytes(&pdf).unwrap();
    assert_eq!(doc.trailer().get_int(&CosName::new(b"Size".to_vec())), Some(3));
}

#[test]
fn document_page_count() {
    let pdf = two_page_pdf();
    let doc = Document::load_from_bytes(&pdf).unwrap();
    assert_eq!(doc.page_count(), 2);
}

#[test]
fn document_pages_get_by_index() {
    let pdf = two_page_pdf();
    let doc = Document::load_from_bytes(&pdf).unwrap();
    let tree = doc.pages().unwrap();
    let p0 = tree.get(0).unwrap();
    assert_eq!(p0.rotation(), 0);
    assert!(tree.get(2).is_none());
}

#[test]
fn source_bytes_retained_as_arc() {
    let pdf = minimal_pdf();
    let doc = Document::load_from_bytes(&pdf).unwrap();
    let arc = doc.source_bytes().expect("source bytes should be retained");
    assert_eq!(arc.len(), pdf.len());
    assert_eq!(&arc[..5], b"%PDF-");
    let arc2 = doc.source_bytes().unwrap();
    assert!(Arc::ptr_eq(&arc, &arc2));
}

#[test]
fn get_object_lazy_load_from_xref() {
    let pdf = two_page_pdf();
    let mut doc = Document::load_from_bytes(&pdf).unwrap();
    let pages_id = ObjectId::new(2, 0);
    let obj = doc.get_object(&pages_id);
    assert!(obj.is_some(), "Pages object should be resolvable");
    let dict = obj.unwrap().as_dictionary().unwrap();
    assert_eq!(dict.get_name(&CosName::type_key()), Some(&CosName::new(b"Pages".to_vec())));
}

#[test]
fn get_object_returns_none_for_missing() {
    let pdf = minimal_pdf();
    let mut doc = Document::load_from_bytes(&pdf).unwrap();
    assert!(doc.get_object(&ObjectId::new(999, 0)).is_none());
}

#[test]
fn object_store_resolve_follows_references() {
    let pdf = two_page_pdf();
    let doc = Document::load_from_bytes(&pdf).unwrap();
    let catalog = doc.catalog().unwrap();
    let pages_ref = catalog.get(&CosName::new(b"Pages".to_vec())).unwrap();
    assert!(matches!(pages_ref, CosObject::Reference(_)));
    let resolved = doc.objects.resolve(pages_ref);
    assert!(resolved.is_some());
    let dict = resolved.unwrap().as_dictionary().unwrap();
    assert_eq!(dict.get_name(&CosName::type_key()), Some(&CosName::new(b"Pages".to_vec())));
}

#[test]
fn object_store_resolve_non_reference_is_identity() {
    let pdf = minimal_pdf();
    let doc = Document::load_from_bytes(&pdf).unwrap();
    let int_obj = CosObject::Integer(42);
    assert_eq!(doc.objects.resolve(&int_obj), Some(&CosObject::Integer(42)));
}

#[test]
fn stream_cache_decode_on_demand() {
    let content = b"BT /F1 12 Tf 72 720 Td (Hello) Tj ET";
    let compressed = {
        let mut enc = flate2::write::ZlibEncoder::new(Vec::new(), flate2::Compression::default());
        enc.write_all(content).unwrap();
        enc.finish().unwrap()
    };
    let mut pdf = b"%PDF-1.4\n".to_vec();
    let stream_off = pdf.len() as u64;
    let dict_str = format!("5 0 obj\n<< /Length {} /Filter /FlateDecode >>\nstream\n", compressed.len());
    pdf.extend_from_slice(dict_str.as_bytes());
    pdf.extend_from_slice(&compressed);
    pdf.extend_from_slice(b"\nendstream\nendobj\n");
    let page_off = pdf.len() as u64;
    pdf.extend_from_slice(b"3 0 obj\n<< /Type /Page /MediaBox [0 0 612 792] /Contents 5 0 R >>\nendobj\n");
    let pages_off = pdf.len() as u64;
    pdf.extend_from_slice(b"2 0 obj\n<< /Type /Pages /Kids [3 0 R] /Count 1 >>\nendobj\n");
    let cat_off = pdf.len() as u64;
    pdf.extend_from_slice(b"1 0 obj\n<< /Type /Catalog /Pages 2 0 R >>\nendobj\n");
    let xref_off = pdf.len();
    pdf.extend_from_slice(b"xref\n0 6\n");
    pdf.extend_from_slice(b"0000000000 65535 f \r\n");
    pdf.extend_from_slice(format!("{:010} 00000 n \r\n", cat_off).as_bytes());
    pdf.extend_from_slice(format!("{:010} 00000 n \r\n", pages_off).as_bytes());
    pdf.extend_from_slice(format!("{:010} 00000 n \r\n", page_off).as_bytes());
    pdf.extend_from_slice(b"0000000000 65535 f \r\n");
    pdf.extend_from_slice(format!("{:010} 00000 n \r\n", stream_off).as_bytes());
    pdf.extend_from_slice(b"trailer\n<< /Size 6 /Root 1 0 R >>\n");
    pdf.extend_from_slice(format!("startxref\n{xref_off}\n%%EOF\n").as_bytes());

    let mut doc = Document::load_from_bytes(&pdf).unwrap();
    assert_eq!(doc.cached_stream_count(), 0);
    let stream_id = ObjectId::new(5, 0);
    let decoded = doc.get_decoded_stream(&stream_id);
    assert!(decoded.is_some(), "should decode FlateDecode stream");
    let decoded_bytes = decoded.unwrap();
    assert_eq!(decoded_bytes.as_slice(), content.as_slice());
    assert_eq!(doc.cached_stream_count(), 1);
    let decoded2 = doc.get_decoded_stream(&stream_id).unwrap();
    assert!(Arc::ptr_eq(&decoded_bytes, &decoded2));
    doc.evict_stream(&stream_id);
    assert_eq!(doc.cached_stream_count(), 0);
}

#[test]
fn stream_cache_returns_none_for_non_stream() {
    let pdf = minimal_pdf();
    let mut doc = Document::load_from_bytes(&pdf).unwrap();
    assert!(doc.get_decoded_stream(&ObjectId::new(1, 0)).is_none());
}

#[test]
fn arc_source_bytes_can_be_shared_cheaply() {
    let pdf = minimal_pdf();
    let doc = Document::load_from_bytes(&pdf).unwrap();
    let a1 = doc.source_bytes().unwrap();
    let a2 = doc.source_bytes().unwrap();
    let a3 = a1.clone();
    assert!(Arc::ptr_eq(&a1, &a2));
    assert!(Arc::ptr_eq(&a1, &a3));
    assert_eq!(Arc::strong_count(&a1), 4);
}

// Further cases

#[test]
fn lenient_load_without_header_warns() {
    let mut pdf = minimal_pdf();
    pdf.drain(0..9);
    let (doc, report) = Document::load_lenient(&pdf);
    assert!(!report.is_clean());
    assert_eq!(doc.source_len(), pdf.len());
}

#[test]
fn lenient_load_recovers_from_broken_xref() {
    let pdf = b"%PDF-1.4\n1 0 obj\n<< /Type /Catalog /Pages 2 0 R >>\nendobj\n2 0 obj\n<< /Type /Pages /Kids [] /Count 0 >>\nendobj\ntrailer\n<< /Root 1 0 R >>\n%%EOF\n";
    let (doc, report) = Document::load_lenient(pdf);
    assert!(report.xref_recovered);
    assert_eq!(doc.catalog_ref(), Some(ObjectId::new(1, 0)));
    assert!(doc.catalog().is_some());
    assert_eq!(doc.page_count(), 0);
}

#[test]
fn lenient_load_clean_file_has_no_warnings() {
    let pdf = minimal_pdf();
    let (doc, report) = Document::load_lenient(&pdf);
    assert!(report.is_clean());
    assert!(!report.xref_recovered);
    assert_eq!(doc.object_count(), 2);
}

#[test]
fn object_store_insert_replaces() {
    let mut store = ObjectStore::new();
    let id = ObjectId::new(7, 0);
    store.insert(id, CosObject::Integer(1));
    store.insert(id, CosObject::Integer(2));
    assert_eq!(store.len(), 1);
    assert_eq!(store.get(&id), Some(&CosObject::Integer(2)));
}

#[test]
fn object_store_resolve_breaks_on_cycle() {
    let mut store = ObjectStore::new();
    store.insert(ObjectId::new(1, 0), CosObject::Reference(ObjectId::new(2, 0)));
    store.insert(ObjectId::new(2, 0), CosObject::Reference(ObjectId::new(1, 0)));
    assert!(store.resolve(&CosObject::Reference(ObjectId::new(1, 0))).is_none());
}

#[test]
fn allocate_object_id_is_fresh() {
    let pdf = two_page_pdf();
    let mut doc = Document::load_from_bytes(&pdf).unwrap();
    let a = doc.allocate_object_id();
    let b = doc.allocate_object_id();
    assert_eq!(a, ObjectId::new(5, 0));
    assert_eq!(b, ObjectId::new(6, 0));
}

#[test]
fn empty_document_has_no_pages() {
    let doc = Document::empty();
    assert_eq!(doc.page_count(), 0);
    assert!(doc.catalog().is_none());
    assert!(doc.pages().is_err());
}

// Pages

fn two_page_store() -> (ObjectStore, ObjectId) {
    let mut store = ObjectStore::new();
    let mut p1 = CosDictionary::new();
    p1.insert(CosName::type_key(), CosObject::Name(CosName::new(b"Page".to_vec())));
    p1.insert(CosName::new(b"MediaBox".to_vec()), CosObject::Array(vec![CosObject::Integer(0), CosObject::Integer(0), CosObject::Integer(612), CosObject::Integer(792)]));
    let p1_id = ObjectId::new(3, 0);
    store.insert(p1_id, CosObject::Dictionary(p1));
    let mut p2 = CosDictionary::new();
    p2.insert(CosName::type_key(), CosObject::Name(CosName::new(b"Page".to_vec())));
    p2.insert(CosName::new(b"MediaBox".to_vec()), CosObject::Array(vec![CosObject::Integer(0), CosObject::Integer(0), CosObject::Integer(595), CosObject::Integer(842)]));
    let p2_id = ObjectId::new(4, 0);
    store.insert(p2_id, CosObject::Dictionary(p2));
    let mut pages = CosDictionary::new();
    pages.insert(CosName::type_key(), CosObject::Name(CosName::new(b"Pages".to_vec())));
    pages.insert(CosName::kids(), CosObject::Array(vec![CosObject::Reference(p1_id), CosObject::Reference(p2_id)]));
    pages.insert(CosName::count(), CosObject::Integer(2));
    let pages_id = ObjectId::new(2, 0);
    store.insert(pages_id, CosObject::Dictionary(pages));
    let mut catalog = CosDictionary::new();
    catalog.insert(CosName::type_key(), CosObject::Name(CosName::new(b"Catalog".to_vec())));
    catalog.insert(CosName::pages(), CosObject::Reference(pages_id));
    let catalog_id = ObjectId::new(1, 0);
    store.insert(catalog_id, CosObject::Dictionary(catalog));
    (store, catalog_id)
}

#[test]
fn page_tree_count() {
    let (store, cat_id) = two_page_store();
    let cat = store.get(&cat_id).unwrap().as_dictionary().unwrap();
    let tree = PageTree::new(cat, &store).unwrap();
    assert_eq!(tree.count(), 2);
}

#[test]
fn page_tree_iter() {
    let (store, cat_id) = two_page_store();
    let cat = store.get(&cat_id).unwrap().as_dictionary().unwrap();
    let tree = PageTree::new(cat, &store).unwrap();
    let pages: Vec<_> = tree.iter().collect();
    assert_eq!(pages.len(), 2);
    assert_eq!(pages[0].index, 0);
    assert_eq!(pages[1].index, 1);
}

#[test]
fn page_tree_out_of_range() {
    let (store, cat_id) = two_page_store();
    let cat = store.get(&cat_id).unwrap().as_dictionary().unwrap();
    let tree = PageTree::new(cat, &store).unwrap();
    assert!(tree.get(2).is_none());
}

#[test]
fn page_tree_missing_catalog_pages() {
    let store = ObjectStore::new();
    let mut cat = CosDictionary::new();
    cat.insert(CosName::type_key(), CosObject::Name(CosName::new(b"Catalog".to_vec())));
    assert!(PageTree::new(&cat, &store).is_err());
}

#[test]
fn page_tree_cycle_is_error() {
    let mut store = ObjectStore::new();
    let mut pages = CosDictionary::new();
    pages.insert(CosName::type_key(), CosObject::Name(CosName::new(b"Pages".to_vec())));
    pages.insert(CosName::kids(), CosObject::Array(vec![CosObject::Reference(ObjectId::new(2, 0))]));
    store.insert(ObjectId::new(2, 0), CosObject::Dictionary(pages));
    let mut cat = CosDictionary::new();
    cat.insert(CosName::pages(), CosObject::Reference(ObjectId::new(2, 0)));
    assert!(matches!(PageTree::new(&cat, &store), Err(PdfError::Parse { .. })));
}

#[test]
fn page_tree_missing_kid_is_xref_error() {
    let mut store = ObjectStore::new();
    let mut pages = CosDictionary::new();
    pages.insert(CosName::kids(), CosObject::Array(vec![CosObject::Reference(ObjectId::new(9, 0))]));
    store.insert(ObjectId::new(2, 0), CosObject::Dictionary(pages));
    let mut cat = CosDictionary::new();
    cat.insert(CosName::pages(), CosObject::Reference(ObjectId::new(2, 0)));
    match PageTree::new(&cat, &store) {
        Err(PdfError::Xref { object_id }) => assert_eq!(object_id, Some(ObjectId::new(9, 0))),
        _ => panic!("expected an xref error"),
    }
}

fn make_page_dict(media_box: &[&[u8]; 4], rotation: Option<i64>) -> CosDictionary {
    let mut d = CosDictionary::new();
    d.insert(CosName::type_key(), CosObject::Name(CosName::new(b"Page".to_vec())));
    d.insert(CosName::new(b"MediaBox".to_vec()), CosObject::Array(vec![
        CosObject::Real(media_box[0].to_vec()),
        CosObject::Real(media_box[1].to_vec()),
        CosObject::Real(media_box[2].to_vec()),
        CosObject::Real(media_box[3].to_vec()),
    ]));
    if let Some(r) = rotation {
        d.insert(CosName::new(b"Rotate".to_vec()), CosObject::Integer(r));
    }
    d
}

#[test]
fn page_rotation_default() {
    let d = make_page_dict(&[b"0.0", b"0.0", b"612.0", b"792.0"], None);
    let page = Page::new(&d, 0);
    assert_eq!(page.rotation(), 0);
}

#[test]
fn page_rotation_explicit() {
    let d = make_page_dict(&[b"0.0", b"0.0", b"612.0", b"792.0"], Some(90));
    let page = Page::new(&d, 0);
    assert_eq!(page.rotation(), 90);
}

#[test]
fn page_rotation_negative_is_brought_into_range() {
    let d = make_page_dict(&[b"0.0", b"0.0", b"612.0", b"792.0"], Some(-450));
    assert_eq!(Page::new(&d, 0).rotation(), 270);
}

#[test]
fn resources_font_dict() {
    let mut font_dict = CosDictionary::new();
    font_dict.insert(CosName::new(b"F1".to_vec()), CosObject::Null);
    let mut res_dict = CosDictionary::new();
    res_dict.insert(CosName::new(b"Font".to_vec()), CosObject::Dictionary(font_dict));
    let res = Resources::new(&res_dict);
    assert!(res.font_dict().is_some());
    assert_eq!(res.font_dict().unwrap().len(), 1);
}

#[test]
fn lenient_load_of_a_sound_file_is_not_recovered() {
    let pdf = minimal_pdf();
    let (doc, report) = Document::load_lenient(&pdf);
    assert!(!report.xref_recovered);
    assert!(report.is_clean());
    assert_eq!(doc.catalog_ref(), Some(ObjectId::new(1, 0)));
    assert_eq!(doc.xref.len(), 3);
}

#[test]
fn get_object_of_free_entry_is_none() {
    let mut doc = Document::load_from_bytes(&minimal_pdf()).unwrap();
    let before = doc.object_count();
    assert!(doc.get_object(&ObjectId::new(0, 65535)).is_none());
    assert_eq!(doc.object_count(), before);
}

#[test]
fn load_from_bytes_loads_every_in_use_object() {
    let doc = Document::load_from_bytes(&two_page_pdf()).unwrap();
    assert_eq!(doc.object_count(), 4);
    assert_eq!(doc.page_count(), 2);
}

#[test]
fn lenient_scan_records_each_object_at_its_header() {
    let pdf: &[u8] = b"%PDF-1.4\n1 0 obj\n<< /Type /Catalog /Pages 2 0 R >>\nendobj\n2 0 obj\n<< /Type /Pages /Kids [] /Count 0 >>\nendobj\ntrailer\n<< /Root 1 0 R >>\n%%EOF\n";
    let (doc, report) = Document::load_lenient(pdf);
    assert!(report.xref_recovered);
    let at = |needle: &[u8]| pdf.windows(needle.len()).position(|w| w == needle).unwrap() as u64;
    assert!(matches!(doc.xref.get(&ObjectId::new(1, 0)),
        Some(pdfbox::parser::xref::XRefEntry::InUse { offset, generation: 0 }) if *offset == at(b"1 0 obj")));
    assert!(matches!(doc.xref.get(&ObjectId::new(2, 0)),
        Some(pdfbox::parser::xref::XRefEntry::InUse { offset, generation: 0 }) if *offset == at(b"2 0 obj")));
    assert_eq!(doc.xref.len(), 2);
}

fn reference_chain(n: u32) -> ObjectStore {
    let mut store = ObjectStore::new();
    for i in 1..=n {
        store.insert(ObjectId::new(i, 0), CosObject::Reference(ObjectId::new(i + 1, 0)));
    }
    store.insert(ObjectId::new(n + 1, 0), CosObject::Integer(7));
    store
}

#[test]
fn object_store_resolve_follows_fifteen_references() {
    let store = reference_chain(14);
    assert_eq!(store.resolve(&CosObject::Reference(ObjectId::new(1, 0))), Some(&CosObject::Integer(7)));
}

#[test]
fn object_store_resolve_stops_at_sixteen_references() {
    let store = reference_chain(15);
    assert_eq!(store.resolve(&CosObject::Reference(ObjectId::new(1, 0))), None);
}

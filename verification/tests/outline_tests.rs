use pdfbox::cos::{CosDictionary, CosName, CosObject, ObjectId};
use pdfbox::document::{Document, ObjectStore};
use pdfbox::outline::item::OutlineItem;
use pdfbox::outline::OutlineExt;
use pdfbox::outline::dest::{destination_array, uri_action, FitModeText};

fn make_item_dict(title: &str, count: i64) -> CosDictionary {
    let mut d = CosDictionary::new();
    d.insert(
        CosName::new(b"Title".to_vec()),
        CosObject::String(title.as_bytes().to_vec()),
    );
    d.insert(CosName::count(), CosObject::Integer(count));
    d
}

#[test]
fn test_outline_item_title() {
    let dict = make_item_dict("Chapter 1", 0);
    let store = ObjectStore::new();
    let item = OutlineItem::new(ObjectId::new(1, 0), &dict, &store);
    assert_eq!(item.title(), "Chapter 1");
}

#[test]
fn test_outline_item_open_closed() {
    let store = ObjectStore::new();

    let open_dict = make_item_dict("Open", 3);
    let open_item = OutlineItem::new(ObjectId::new(1, 0), &open_dict, &store);
    assert!(open_item.is_open());

    let closed_dict = make_item_dict("Closed", -3);
    let closed_item = OutlineItem::new(ObjectId::new(2, 0), &closed_dict, &store);
    assert!(!closed_item.is_open());
}

#[test]
fn test_outline_item_no_children() {
    let dict = make_item_dict("Leaf", 0);
    let store = ObjectStore::new();
    let item = OutlineItem::new(ObjectId::new(1, 0), &dict, &store);
    assert!(item.first_child().is_none());
    assert!(item.descendants().is_empty());
}

/// Build a minimal document with an outline containing 2 top-level items.
fn doc_with_outline() -> Document {
    let bytes = b"%PDF-1.7\n\
        1 0 obj\n<< /Type /Catalog /Pages 2 0 R /Outlines 4 0 R >>\nendobj\n\
        2 0 obj\n<< /Type /Pages /Kids [3 0 R] /Count 1 >>\nendobj\n\
        3 0 obj\n<< /Type /Page /Parent 2 0 R /MediaBox [0 0 612 792] >>\nendobj\n\
        4 0 obj\n<< /Type /Outlines /First 5 0 R /Last 6 0 R /Count 2 >>\nendobj\n\
        5 0 obj\n<< /Title (Chapter 1) /Parent 4 0 R /Next 6 0 R /Dest [3 0 R /Fit] >>\nendobj\n\
        6 0 obj\n<< /Title (Chapter 2) /Parent 4 0 R /Prev 5 0 R /Dest [3 0 R /FitH 400] >>\nendobj\n\
        xref\n0 7\n0000000000 65535 f \n0000000009 00000 n \n0000000075 00000 n \n\
        0000000150 00000 n \n0000000260 00000 n \n0000000341 00000 n \n\
        0000000447 00000 n \ntrailer\n<< /Size 7 /Root 1 0 R >>\nstartxref\n552\n%%EOF";
    let (doc, _report) = Document::load_lenient(bytes);
    doc
}

#[test]
fn test_outline_exists() {
    let doc = doc_with_outline();
    let outline = doc.outline();
    assert!(outline.is_some(), "outline should be present");
}

#[test]
fn test_outline_top_level_items() {
    let doc = doc_with_outline();
    let outline = doc.outline().unwrap();
    let items = outline.items();
    assert_eq!(items.len(), 2);
    assert_eq!(items[0].title(), "Chapter 1");
    assert_eq!(items[1].title(), "Chapter 2");
}

#[test]
fn test_outline_first_last() {
    let doc = doc_with_outline();
    let outline = doc.outline().unwrap();
    let first = outline.first_item().unwrap();
    let last = outline.last_item().unwrap();
    assert_eq!(first.title(), "Chapter 1");
    assert_eq!(last.title(), "Chapter 2");
}

#[test]
fn test_outline_count() {
    let doc = doc_with_outline();
    let outline = doc.outline().unwrap();
    assert_eq!(outline.count(), 2);
}

#[test]
fn test_no_outline() {
    let bytes = b"%PDF-1.7\n\
        1 0 obj\n<< /Type /Catalog /Pages 2 0 R >>\nendobj\n\
        2 0 obj\n<< /Type /Pages /Kids [3 0 R] /Count 1 >>\nendobj\n\
        3 0 obj\n<< /Type /Page /Parent 2 0 R /MediaBox [0 0 612 792] >>\nendobj\n\
        xref\n0 4\n0000000000 65535 f \n0000000009 00000 n \n0000000054 00000 n \n\
        0000000129 00000 n \ntrailer\n<< /Size 4 /Root 1 0 R >>\nstartxref\n194\n%%EOF";
    let (doc, _report) = Document::load_lenient(bytes);
    assert!(doc.outline().is_none());
}

#[test]
fn test_outline_item_navigation() {
    let doc = doc_with_outline();
    let outline = doc.outline().unwrap();
    let first = outline.first_item().unwrap();
    let next = first.next().unwrap();
    assert_eq!(next.title(), "Chapter 2");
    let prev = next.prev().unwrap();
    assert_eq!(prev.title(), "Chapter 1");
}

#[test]
fn test_all_items() {
    let doc = doc_with_outline();
    let outline = doc.outline().unwrap();
    let all = outline.all_items();
    assert_eq!(all.len(), 2);
}

#[test]
fn outline_nested_items_depth_first() {
    let mut store = ObjectStore::new();
    let mut root = CosDictionary::new();
    root.insert(CosName::new(b"First".to_vec()), CosObject::Reference(ObjectId::new(2, 0)));
    let mut a = CosDictionary::new();
    a.insert(CosName::new(b"Title".to_vec()), CosObject::String(b"A".to_vec()));
    a.insert(CosName::new(b"First".to_vec()), CosObject::Reference(ObjectId::new(3, 0)));
    a.insert(CosName::new(b"Next".to_vec()), CosObject::Reference(ObjectId::new(4, 0)));
    let mut a1 = CosDictionary::new();
    a1.insert(CosName::new(b"Title".to_vec()), CosObject::String(b"A.1".to_vec()));
    let mut b = CosDictionary::new();
    b.insert(CosName::new(b"Title".to_vec()), CosObject::String(b"B".to_vec()));
    store.insert(ObjectId::new(2, 0), CosObject::Dictionary(a));
    store.insert(ObjectId::new(3, 0), CosObject::Dictionary(a1));
    store.insert(ObjectId::new(4, 0), CosObject::Dictionary(b));
    let outline = pdfbox::outline::DocumentOutline::new(&root, &store);
    let titles: Vec<String> = outline.all_items().iter().map(|i| i.title()).collect();
    assert_eq!(titles, vec!["A".to_string(), "A.1".to_string(), "B".to_string()]);
    assert_eq!(outline.items().len(), 2);
    assert_eq!(outline.count(), 0);
}

#[test]
fn outline_cycle_is_cut() {
    let mut store = ObjectStore::new();
    let mut root = CosDictionary::new();
    root.insert(CosName::new(b"First".to_vec()), CosObject::Reference(ObjectId::new(2, 0)));
    let mut a = CosDictionary::new();
    a.insert(CosName::new(b"Next".to_vec()), CosObject::Reference(ObjectId::new(2, 0)));
    store.insert(ObjectId::new(2, 0), CosObject::Dictionary(a));
    let outline = pdfbox::outline::DocumentOutline::new(&root, &store);
    assert_eq!(outline.items().len(), 1);
}

#[test]
fn outline_item_count_and_parent() {
    let mut store = ObjectStore::new();
    let mut parent = CosDictionary::new();
    parent.insert(CosName::new(b"Title".to_vec()), CosObject::String(b"Top".to_vec()));
    store.insert(ObjectId::new(7, 0), CosObject::Dictionary(parent));
    let mut d = CosDictionary::new();
    d.insert(CosName::count(), CosObject::Integer(-2));
    d.insert(CosName::new(b"Parent".to_vec()), CosObject::Reference(ObjectId::new(7, 0)));
    let item = OutlineItem::new(ObjectId::new(1, 0), &d, &store);
    assert_eq!(item.count(), -2);
    assert!(!item.is_open());
    assert_eq!(item.parent().unwrap().title(), "Top");
    assert!(item.last_child().is_none());
}

#[test]
fn destination_array_fit_r() {
    let fit = FitModeText::FitR(b"1".to_vec(), b"2".to_vec(), b"3.5".to_vec(), b"4".to_vec());
    let arr = destination_array(Some(pdfbox::cos::ObjectId::new(7, 0)), &fit);
    let items = arr.as_array().unwrap();
    assert_eq!(items.len(), 6);
    assert_eq!(items[0], pdfbox::cos::CosObject::Reference(pdfbox::cos::ObjectId::new(7, 0)));
    assert_eq!(items[1].as_name().unwrap().as_bytes(), b"FitR");
    assert_eq!(items[4], pdfbox::cos::CosObject::Real(b"3.5".to_vec()));
}

#[test]
fn destination_array_xyz_nulls_and_unknown_page() {
    let arr = destination_array(None, &FitModeText::XYZ(None, Some(b"700".to_vec()), None));
    let items = arr.as_array().unwrap();
    assert_eq!(items.len(), 5);
    assert_eq!(items[0], pdfbox::cos::CosObject::Null);
    assert_eq!(items[2], pdfbox::cos::CosObject::Null);
    assert_eq!(items[3], pdfbox::cos::CosObject::Real(b"700".to_vec()));
}

#[test]
fn destination_fit_h_without_top() {
    let arr = destination_array(None, &FitModeText::FitH(None));
    assert_eq!(arr.as_array().unwrap().len(), 2);
}

#[test]
fn uri_action_dictionary() {
    let a = uri_action(b"https://example.com");
    let d = a.as_dictionary().unwrap();
    assert_eq!(d.get_name(&pdfbox::cos::CosName::named("S")).unwrap().as_bytes(), b"URI");
    assert_eq!(d.get(&pdfbox::cos::CosName::named("URI")), Some(&pdfbox::cos::CosObject::String(b"https://example.com".to_vec())));
}

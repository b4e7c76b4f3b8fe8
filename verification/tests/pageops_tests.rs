use pdfbox::cos::{CosDictionary, CosName, CosObject, CosStream, ObjectId};
use pdfbox::document::{Document, PdfResult};
use pdfbox::pageops::{
    add_watermark_streams, ensure_helvetica_font, extract_pages, overlay_pages, rotate_page, watermark_text_stream,
    OverlayPlacement, PdfMerger, PdfSplitter,
};
use pdfbox::parser::xref::XRefEntry;

fn name(s: &str) -> CosName {
    CosName::new(s.as_bytes().to_vec())
}

fn page_dict(pages_id: ObjectId, content_id: Option<ObjectId>) -> CosDictionary {
    let mut d = CosDictionary::new();
    d.insert(name("Type"), CosObject::Name(name("Page")));
    d.insert(name("Parent"), CosObject::Reference(pages_id));
    d.insert(
        name("MediaBox"),
        CosObject::Array(vec![
            CosObject::Integer(0),
            CosObject::Integer(0),
            CosObject::Integer(612),
            CosObject::Integer(792),
        ]),
    );
    if let Some(c) = content_id {
        d.insert(CosName::contents(), CosObject::Reference(c));
    }
    d.insert(name("Rotate"), CosObject::Integer(0));
    d
}

fn catalog_dict(pages_id: ObjectId) -> CosDictionary {
    let mut d = CosDictionary::new();
    d.insert(name("Type"), CosObject::Name(name("Catalog")));
    d.insert(name("Pages"), CosObject::Reference(pages_id));
    d
}

/// One page, built in memory (catalog 1, page tree 2, page 3, content 4).
fn minimal_doc() -> Document {
    let catalog_id = ObjectId::new(1, 0);
    let pages_id = ObjectId::new(2, 0);
    let page_id = ObjectId::new(3, 0);
    let content_id = ObjectId::new(4, 0);
    let mut doc = Document::empty();
    doc.insert_object(catalog_id, CosObject::Dictionary(catalog_dict(pages_id)));
    let mut pages = CosDictionary::new();
    pages.insert(name("Type"), CosObject::Name(name("Pages")));
    pages.insert(name("Count"), CosObject::Integer(1));
    pages.insert(name("Kids"), CosObject::Array(vec![CosObject::Reference(page_id)]));
    doc.insert_object(pages_id, CosObject::Dictionary(pages));
    doc.insert_object(page_id, CosObject::Dictionary(page_dict(pages_id, Some(content_id))));
    doc.insert_object(
        content_id,
        CosObject::Stream(CosStream::new(CosDictionary::new(), b"BT /F1 12 Tf (Hello) Tj ET".to_vec())),
    );
    doc.xref.trailer.insert(name("Root"), CosObject::Reference(catalog_id));
    doc
}

/// A two-page file.
fn minimal_pdf_bytes() -> Vec<u8> {
    let mut pdf = b"%PDF-1.4\n".to_vec();
    let o1 = pdf.len();
    pdf.extend_from_slice(b"1 0 obj\n<< /Type /Catalog /Pages 2 0 R >>\nendobj\n");
    let o2 = pdf.len();
    pdf.extend_from_slice(b"2 0 obj\n<< /Type /Pages /Kids [3 0 R 4 0 R] /Count 2 >>\nendobj\n");
    let o3 = pdf.len();
    pdf.extend_from_slice(
        b"3 0 obj\n<< /Type /Page /Parent 2 0 R /MediaBox [0 0 612 792] /Rotate 0 >>\nendobj\n",
    );
    let o4 = pdf.len();
    pdf.extend_from_slice(
        b"4 0 obj\n<< /Type /Page /Parent 2 0 R /MediaBox [0 0 612 792] /Rotate 0 >>\nendobj\n",
    );
    let xref = pdf.len();
    pdf.extend_from_slice(b"xref\n0 5\n");
    pdf.extend_from_slice(b"0000000000 65535 f \r\n");
    for o in [o1, o2, o3, o4] {
        pdf.extend_from_slice(format!("{:010} 00000 n \r\n", o).as_bytes());
    }
    pdf.extend_from_slice(b"trailer\n<< /Size 5 /Root 1 0 R >>\n");
    pdf.extend_from_slice(format!("startxref\n{}\n%%EOF\n", xref).as_bytes());
    pdf
}

/// Two pages sharing one content stream (catalog 1, tree 2, pages 3 and 4).
fn two_page_doc() -> Document {
    let catalog_id = ObjectId::new(1, 0);
    let pages_id = ObjectId::new(2, 0);
    let page1_id = ObjectId::new(3, 0);
    let page2_id = ObjectId::new(4, 0);
    let content_id = ObjectId::new(5, 0);
    let mut doc = Document::empty();
    doc.insert_object(catalog_id, CosObject::Dictionary(catalog_dict(pages_id)));
    let mut pages = CosDictionary::new();
    pages.insert(name("Type"), CosObject::Name(name("Pages")));
    pages.insert(name("Count"), CosObject::Integer(2));
    pages.insert(
        name("Kids"),
        CosObject::Array(vec![CosObject::Reference(page1_id), CosObject::Reference(page2_id)]),
    );
    doc.insert_object(pages_id, CosObject::Dictionary(pages));
    for pid in [page1_id, page2_id] {
        doc.insert_object(pid, CosObject::Dictionary(page_dict(pages_id, Some(content_id))));
    }
    doc.insert_object(
        content_id,
        CosObject::Stream(CosStream::new(CosDictionary::new(), b"BT ET".to_vec())),
    );
    doc.xref.trailer.insert(name("Root"), CosObject::Reference(catalog_id));
    doc
}

/// A one-page A4 document laid out as a document builder lays it out:
/// catalog 1, page tree 2 (with shared font resources), page 3.
fn make_doc() -> PdfResult<Document> {
    let catalog_id = ObjectId::new(1, 0);
    let pages_id = ObjectId::new(2, 0);
    let page_id = ObjectId::new(3, 0);
    let mut doc = Document::empty();
    doc.xref.trailer.insert(name("Size"), CosObject::Integer(4));
    doc.xref.trailer.insert(name("Root"), CosObject::Reference(catalog_id));
    doc.insert_object(catalog_id, CosObject::Dictionary(catalog_dict(pages_id)));

    let mut pages = CosDictionary::new();
    pages.insert(name("Type"), CosObject::Name(name("Pages")));
    pages.insert(name("Kids"), CosObject::Array(vec![CosObject::Reference(page_id)]));
    pages.insert(name("Count"), CosObject::Integer(1));
    let mut helvetica = CosDictionary::new();
    helvetica.insert(name("Type"), CosObject::Name(name("Font")));
    helvetica.insert(name("Subtype"), CosObject::Name(name("Type1")));
    helvetica.insert(name("BaseFont"), CosObject::Name(name("Helvetica")));
    let mut fonts = CosDictionary::new();
    fonts.insert(name("Helvetica"), CosObject::Dictionary(helvetica));
    let mut resources = CosDictionary::new();
    resources.insert(name("Font"), CosObject::Dictionary(fonts));
    pages.insert(name("Resources"), CosObject::Dictionary(resources));
    doc.insert_object(pages_id, CosObject::Dictionary(pages));

    let mut page = CosDictionary::new();
    page.insert(name("Type"), CosObject::Name(name("Page")));
    page.insert(name("Parent"), CosObject::Reference(pages_id));
    page.insert(
        name("MediaBox"),
        CosObject::Array(vec![
            CosObject::Real(b"0".to_vec()),
            CosObject::Real(b"0".to_vec()),
            CosObject::Real(b"595.28".to_vec()),
            CosObject::Real(b"841.89".to_vec()),
        ]),
    );
    doc.insert_object(page_id, CosObject::Dictionary(page));
    for id in [catalog_id, pages_id, page_id] {
        doc.xref.insert_if_absent(id, XRefEntry::InUse { offset: 0, generation: 0 });
    }
    Ok(doc)
}

fn make_multi_page_doc(n: usize) -> PdfResult<Document> {
    let mut merger = PdfMerger::new();
    for _ in 0..n {
        let doc = make_doc()?;
        merger.append(&doc)?;
    }
    Ok(merger.finish())
}

fn build_multi_page_doc(count: usize) -> Document {
    make_multi_page_doc(count).unwrap()
}

fn rotation_of(doc: &Document, index: usize) -> i64 {
    let tree = doc.pages().unwrap();
    tree.get(index).unwrap().rotation()
}

// ── rotate ──────────────────────────────────────────────────────────────

#[test]
fn test_rotate_page_90() {
    let mut doc = minimal_doc();
    rotate_page(&mut doc, 0, 90).unwrap();
    assert_eq!(rotation_of(&doc, 0), 90);
}

#[test]
fn test_rotate_page_360_wraps() {
    let mut doc = minimal_doc();
    rotate_page(&mut doc, 0, 360).unwrap();
    assert_eq!(rotation_of(&doc, 0), 0);
}

#[test]
fn test_rotate_page_negative() {
    let mut doc = minimal_doc();
    rotate_page(&mut doc, 0, -90).unwrap();
    assert_eq!(rotation_of(&doc, 0), 270);
}

#[test]
fn test_rotate_page_cumulative() {
    let mut doc = minimal_doc();
    rotate_page(&mut doc, 0, 90).unwrap();
    rotate_page(&mut doc, 0, 180).unwrap();
    assert_eq!(rotation_of(&doc, 0), 270);
}

#[test]
fn test_rotate_from_bytes_90() {
    let mut doc = Document::load_from_bytes(&minimal_pdf_bytes()).unwrap();
    rotate_page(&mut doc, 0, 90).unwrap();
    assert_eq!(rotation_of(&doc, 0), 90);
    assert_eq!(rotation_of(&doc, 1), 0);
}

#[test]
fn test_rotate_from_bytes_360_wraps() {
    let mut doc = Document::load_from_bytes(&minimal_pdf_bytes()).unwrap();
    rotate_page(&mut doc, 0, 360).unwrap();
    assert_eq!(rotation_of(&doc, 0), 0);
}

#[test]
fn test_rotate_from_bytes_multiple_pages() {
    let mut doc = Document::load_from_bytes(&minimal_pdf_bytes()).unwrap();
    rotate_page(&mut doc, 0, 90).unwrap();
    rotate_page(&mut doc, 1, 180).unwrap();
    assert_eq!(rotation_of(&doc, 0), 90);
    assert_eq!(rotation_of(&doc, 1), 180);
}

#[test]
fn test_rotate_from_bytes_negative() {
    let mut doc = Document::load_from_bytes(&minimal_pdf_bytes()).unwrap();
    rotate_page(&mut doc, 1, -90).unwrap();
    assert_eq!(rotation_of(&doc, 1), 270);
}

#[test]
fn test_rotate_from_bytes_cumulative() {
    let mut doc = Document::load_from_bytes(&minimal_pdf_bytes()).unwrap();
    rotate_page(&mut doc, 1, 90).unwrap();
    rotate_page(&mut doc, 1, 180).unwrap();
    rotate_page(&mut doc, 1, 45).unwrap();
    assert_eq!(rotation_of(&doc, 1), 315);
}

#[test]
fn test_rotate_from_bytes_out_of_bounds() {
    let mut doc = Document::load_from_bytes(&minimal_pdf_bytes()).unwrap();
    let result = rotate_page(&mut doc, 99, 90);
    assert!(result.is_err());
}

#[test]
fn rotate_out_of_bounds_message_names_the_index() {
    let mut doc = minimal_doc();
    match rotate_page(&mut doc, 7, 90) {
        Err(pdfbox::PdfError::Parse { offset, context }) => {
            assert_eq!(offset, None);
            assert_eq!(context, "page index out of bounds: 7");
        }
        other => panic!("unexpected {:?}", other),
    }
    assert_eq!(rotation_of(&doc, 0), 0);
}

#[test]
fn rotate_without_catalog_is_an_error() {
    let mut doc = Document::empty();
    assert!(rotate_page(&mut doc, 0, 90).is_err());
}

#[test]
fn rotate_large_negative_turn_lands_in_range() {
    let mut doc = minimal_doc();
    rotate_page(&mut doc, 0, -810).unwrap();
    assert_eq!(rotation_of(&doc, 0), 270);
}

// ── split ───────────────────────────────────────────────────────────────

#[test]
fn test_split_one_per_doc() {
    let mut doc = two_page_doc();
    let mut splitter = PdfSplitter::new(&mut doc);
    let result = splitter.split(1).unwrap();
    assert_eq!(result.len(), 2);
}

#[test]
fn test_split_all_in_one() {
    let mut doc = two_page_doc();
    let mut splitter = PdfSplitter::new(&mut doc);
    let result = splitter.split(10).unwrap();
    assert_eq!(result.len(), 1);
}

#[test]
fn test_split_empty_doc() {
    let mut doc = Document::empty();
    let mut splitter = PdfSplitter::new(&mut doc);
    let result = splitter.split(1).unwrap();
    assert!(result.is_empty());
}

#[test]
fn test_splitter_new_creates_empty_splitter() {
    let mut doc = Document::empty();
    let splitter = PdfSplitter::new(&mut doc);
    assert!(splitter.doc.catalog_id().is_some() || splitter.doc.page_count() == 0);
}

#[test]
fn test_split_exact_pages() {
    let mut doc = two_page_doc();
    let mut splitter = PdfSplitter::new(&mut doc);
    let result = splitter.split(2).unwrap();
    assert_eq!(result.len(), 1);
    assert_eq!(result[0].page_count(), 2);
}

#[test]
fn test_split_uneven_chunks() {
    let mut doc = two_page_doc();
    let mut splitter = PdfSplitter::new(&mut doc);
    let result = splitter.split(3).unwrap();
    assert_eq!(result.len(), 1);
    assert_eq!(result[0].page_count(), 2);
}

#[test]
fn test_split_1_page_should_produce_2_docs() {
    let mut doc = two_page_doc();
    let mut splitter = PdfSplitter::new(&mut doc);
    let result = splitter.split(1).unwrap();
    assert_eq!(result.len(), 2);
    assert_eq!(result[0].page_count(), 1);
    assert_eq!(result[1].page_count(), 1);
}

#[test]
fn split_five_pages_by_two() {
    let mut doc = build_multi_page_doc(5);
    let mut splitter = PdfSplitter::new(&mut doc);
    let result = splitter.split(2).unwrap();
    let counts: Vec<usize> = result.iter().map(|d| d.page_count()).collect();
    assert_eq!(counts, vec![2, 2, 1]);
}

// ── extract ─────────────────────────────────────────────────────────────

#[test]
fn test_extract_first_page_from_two_page_doc() -> PdfResult<()> {
    let mut doc = build_multi_page_doc(2);
    let extracted = extract_pages(&mut doc, &[0])?;
    assert_eq!(extracted.page_count(), 1);
    Ok(())
}

#[test]
fn test_extract_last_page_from_two_page_doc() -> PdfResult<()> {
    let mut doc = build_multi_page_doc(2);
    let extracted = extract_pages(&mut doc, &[1])?;
    assert_eq!(extracted.page_count(), 1);
    Ok(())
}

#[test]
fn test_extract_multiple_pages() -> PdfResult<()> {
    let mut doc = build_multi_page_doc(4);
    let extracted = extract_pages(&mut doc, &[0, 2])?;
    assert_eq!(extracted.page_count(), 2);
    Ok(())
}

#[test]
fn test_extract_consecutive_range() -> PdfResult<()> {
    let mut doc = build_multi_page_doc(5);
    let extracted = extract_pages(&mut doc, &[1, 2, 3])?;
    assert_eq!(extracted.page_count(), 3);
    Ok(())
}

#[test]
fn test_extract_all_pages() -> PdfResult<()> {
    let mut doc = build_multi_page_doc(3);
    let extracted = extract_pages(&mut doc, &[0, 1, 2])?;
    assert_eq!(extracted.page_count(), 3);
    Ok(())
}

#[test]
fn test_extract_all_pages_reversed() -> PdfResult<()> {
    let mut doc = build_multi_page_doc(3);
    let extracted = extract_pages(&mut doc, &[2, 1, 0])?;
    assert_eq!(extracted.page_count(), 3);
    Ok(())
}

#[test]
fn test_extract_empty_indices() -> PdfResult<()> {
    let mut doc = build_multi_page_doc(3);
    let extracted = extract_pages(&mut doc, &[])?;
    assert_eq!(extracted.page_count(), 0);
    Ok(())
}

#[test]
fn test_extract_from_single_page_doc() -> PdfResult<()> {
    let mut doc = make_doc()?;
    let extracted = extract_pages(&mut doc, &[0])?;
    assert_eq!(extracted.page_count(), 1);
    Ok(())
}

#[test]
fn test_extract_nonexistent_index_returns_zero_pages() -> PdfResult<()> {
    let mut doc = make_doc()?;
    let extracted = extract_pages(&mut doc, &[99])?;
    assert_eq!(extracted.page_count(), 0);
    Ok(())
}

#[test]
fn test_extract_mixed_valid_and_invalid_indices() -> PdfResult<()> {
    let mut doc = build_multi_page_doc(2);
    let extracted = extract_pages(&mut doc, &[0, 99, 1])?;
    assert_eq!(extracted.page_count(), 2);
    Ok(())
}

#[test]
fn test_source_doc_unchanged_after_extract() -> PdfResult<()> {
    let mut doc = build_multi_page_doc(4);
    let _extracted = extract_pages(&mut doc, &[0, 2])?;
    assert_eq!(doc.page_count(), 4);
    Ok(())
}

#[test]
fn extract_from_document_without_catalog_fails() {
    let mut doc = Document::empty();
    assert!(extract_pages(&mut doc, &[0]).is_err());
}

// ── merge ───────────────────────────────────────────────────────────────

fn pages_node(doc: &Document) -> &CosDictionary {
    let catalog = doc.catalog().unwrap();
    let pages_ref = catalog.get(&CosName::pages()).and_then(|v| v.as_reference()).unwrap();
    doc.get_object_ref(pages_ref).unwrap().as_dictionary().unwrap()
}

#[test]
fn test_merger_new_creates_valid_empty_doc() {
    let merger = PdfMerger::new();
    let doc = merger.finish();
    assert_eq!(doc.page_count(), 0);

    let catalog = doc.catalog().expect("catalog should exist");
    assert_eq!(
        catalog.get_name(&CosName::type_key()).map(|n| n.as_bytes().to_vec()),
        Some(b"Catalog".to_vec())
    );
    let pages_ref = catalog
        .get(&CosName::pages())
        .and_then(|v| v.as_reference())
        .expect("catalog should have /Pages reference");
    let pages_obj = doc.get_object_ref(pages_ref).expect("pages object should exist");
    let pages_dict = pages_obj.as_dictionary().expect("pages should be a dictionary");
    assert_eq!(
        pages_dict.get_name(&CosName::type_key()).map(|n| n.as_bytes().to_vec()),
        Some(b"Pages".to_vec())
    );
    let kids = pages_dict
        .get(&CosName::kids())
        .and_then(|v| v.as_array())
        .expect("pages should have /Kids");
    assert!(kids.is_empty(), "fresh merger should have empty /Kids");
    assert_eq!(pages_dict.get(&CosName::count()).and_then(|v| v.as_integer()), Some(0));
}

#[test]
fn test_merger_new_trailer_has_root_and_size() {
    let merger = PdfMerger::new();
    let doc = merger.finish();
    let trailer = doc.trailer();
    assert!(trailer.get(&CosName::root()).is_some(), "trailer must have /Root");
    assert!(trailer.get(&name("Size")).is_some(), "trailer must have /Size");
}

#[test]
fn test_merge_empty_with_non_empty() -> PdfResult<()> {
    let non_empty = make_doc()?;
    let mut merger = PdfMerger::new();
    merger.append(&non_empty)?;
    let merged = merger.finish();
    assert_eq!(merged.page_count(), 1);
    Ok(())
}

#[test]
fn test_merge_non_empty_with_empty() -> PdfResult<()> {
    let non_empty = make_doc()?;
    let mut merger = PdfMerger::new();
    merger.append(&non_empty)?;
    let empty = PdfMerger::new().finish();
    merger.append(&empty)?;
    let merged = merger.finish();
    assert_eq!(merged.page_count(), 1);
    Ok(())
}

#[test]
fn test_merge_two_empty_docs() -> PdfResult<()> {
    let mut merger = PdfMerger::new();
    let empty = PdfMerger::new().finish();
    merger.append(&empty)?;
    merger.append(&empty)?;
    let merged = merger.finish();
    assert_eq!(merged.page_count(), 0);
    Ok(())
}

#[test]
fn test_merge_preserves_page_order() -> PdfResult<()> {
    let doc1 = make_doc()?;
    let doc2 = make_doc()?;
    let doc3 = make_doc()?;
    let mut merger = PdfMerger::new();
    merger.append(&doc1)?;
    merger.append(&doc2)?;
    merger.append(&doc3)?;
    let merged = merger.finish();
    assert_eq!(merged.page_count(), 3);
    let kids = pages_node(&merged).get(&CosName::kids()).and_then(|v| v.as_array()).unwrap();
    assert_eq!(kids.len(), 3);
    assert_ne!(kids[0], kids[1]);
    assert_ne!(kids[1], kids[2]);
    Ok(())
}

#[test]
fn test_merge_five_docs() -> PdfResult<()> {
    let mut merger = PdfMerger::new();
    for _ in 0..5 {
        merger.append(&make_doc()?)?;
    }
    let merged = merger.finish();
    assert_eq!(merged.page_count(), 5);
    Ok(())
}

#[test]
fn test_merge_multi_page_sources() -> PdfResult<()> {
    let m1 = make_multi_page_doc(3)?;
    let m2 = make_multi_page_doc(2)?;
    let mut merger = PdfMerger::new();
    merger.append(&m1)?;
    merger.append(&m2)?;
    let merged = merger.finish();
    assert_eq!(merged.page_count(), 5);
    Ok(())
}

#[test]
fn test_merge_preserves_catalog_type() -> PdfResult<()> {
    let doc = make_doc()?;
    let mut merger = PdfMerger::new();
    merger.append(&doc)?;
    let merged = merger.finish();
    let catalog = merged.catalog().unwrap();
    assert_eq!(
        catalog.get_name(&CosName::type_key()).map(|n| n.as_bytes().to_vec()),
        Some(b"Catalog".to_vec())
    );
    Ok(())
}

#[test]
fn test_merge_updates_trailer_size() -> PdfResult<()> {
    let doc = make_doc()?;
    let mut merger = PdfMerger::new();
    merger.append(&doc)?;
    let merged = merger.finish();
    let size = merged.trailer().get(&name("Size")).and_then(|v| v.as_integer());
    assert!(size.is_some(), "trailer /Size should be set");
    assert!(size.unwrap() > 0, "trailer /Size should be positive");
    Ok(())
}

#[test]
fn test_merge_merged_doc() -> PdfResult<()> {
    let inner = {
        let mut m = PdfMerger::new();
        m.append(&make_doc()?)?;
        m.append(&make_doc()?)?;
        m.finish()
    };
    let mut merger = PdfMerger::new();
    merger.append(&inner)?;
    merger.append(&make_doc()?)?;
    let merged = merger.finish();
    assert_eq!(merged.page_count(), 3);
    Ok(())
}

#[test]
fn test_merge_zero_then_one_then_zero() -> PdfResult<()> {
    let mut merger = PdfMerger::new();
    merger.append(&PdfMerger::new().finish())?;
    merger.append(&make_doc()?)?;
    merger.append(&PdfMerger::new().finish())?;
    let merged = merger.finish();
    assert_eq!(merged.page_count(), 1);
    Ok(())
}

#[test]
fn test_merger_finish_is_idempotent() {
    let merger = PdfMerger::new();
    let doc = merger.finish();
    assert_eq!(doc.page_count(), 0);
}

#[test]
fn test_merge_pages_have_parent_set() -> PdfResult<()> {
    let doc = make_doc()?;
    let mut merger = PdfMerger::new();
    merger.append(&doc)?;
    let merged = merger.finish();
    let catalog = merged.catalog().unwrap();
    let pages_ref = catalog.get(&CosName::pages()).and_then(|v| v.as_reference()).unwrap();
    let tree = merged.pages()?;
    for page in tree.iter() {
        let parent = page
            .dictionary()
            .get(&name("Parent"))
            .and_then(|v| v.as_reference())
            .expect("each merged page should have /Parent reference");
        assert_eq!(parent, pages_ref, "page should point to merged doc's Pages node");
    }
    Ok(())
}

#[test]
fn merge_shifts_source_objects_above_destination() -> PdfResult<()> {
    let src = make_doc()?;
    let mut merger = PdfMerger::new();
    merger.append(&src)?;
    let merged = merger.finish();
    // Destination held objects 1 and 2, so the source's 1..3 land at 4..6.
    let kids = pages_node(&merged).get(&CosName::kids()).and_then(|v| v.as_array()).unwrap();
    assert_eq!(kids[0].as_reference(), Some(ObjectId::new(6, 0)));
    assert!(merged.get_object_ref(ObjectId::new(3, 0)).is_none());
    assert!(merged.get_object_ref(ObjectId::new(4, 0)).is_some());
    assert!(merged.get_object_ref(ObjectId::new(6, 0)).is_some());
    assert_eq!(merged.trailer().get(&name("Size")).and_then(|v| v.as_integer()), Some(7));
    Ok(())
}

#[test]
fn merge_of_document_without_catalog_fails() {
    let mut merger = PdfMerger::new();
    assert!(merger.append(&Document::empty()).is_err());
    assert_eq!(merger.finish().page_count(), 0);
}

/// Pages with rotations 0, 90, 180, ... under a page-tree node that is
/// object 7 (catalog 6), so that a copy cannot keep `/Parent` by chance.
fn doc_with_node_seven(n: usize) -> Document {
    let catalog_id = ObjectId::new(6, 0);
    let pages_id = ObjectId::new(7, 0);
    let mut doc = Document::empty();
    doc.insert_object(catalog_id, CosObject::Dictionary(catalog_dict(pages_id)));
    let mut kids = Vec::new();
    for i in 0..n {
        let pid = ObjectId::new(8 + i as u32, 0);
        let mut d = page_dict(pages_id, None);
        d.insert(name("Rotate"), CosObject::Integer(90 * i as i64));
        doc.insert_object(pid, CosObject::Dictionary(d));
        kids.push(CosObject::Reference(pid));
    }
    let mut pages = CosDictionary::new();
    pages.insert(name("Type"), CosObject::Name(name("Pages")));
    pages.insert(name("Count"), CosObject::Integer(n as i64));
    pages.insert(name("Kids"), CosObject::Array(kids));
    doc.insert_object(pages_id, CosObject::Dictionary(pages));
    doc.xref.trailer.insert(name("Root"), CosObject::Reference(catalog_id));
    doc
}

fn parents_and_rotations(doc: &Document) -> (ObjectId, Vec<(Option<ObjectId>, i64)>) {
    let node = doc
        .catalog()
        .unwrap()
        .get(&CosName::pages())
        .and_then(|v| v.as_reference())
        .unwrap();
    let tree = doc.pages().unwrap();
    let mut v = Vec::new();
    for i in 0..tree.count() {
        let p = tree.get(i).unwrap();
        let parent = p.dictionary().get(&name("Parent")).and_then(|x| x.as_reference());
        v.push((parent, p.rotation()));
    }
    (node, v)
}

#[test]
fn merged_pages_point_at_the_merged_node() {
    let src = doc_with_node_seven(2);
    let mut merger = PdfMerger::new();
    merger.append(&src).unwrap();
    let merged = merger.finish();
    let (node, pages) = parents_and_rotations(&merged);
    assert_eq!(node, ObjectId::new(2, 0));
    assert_eq!(pages, vec![(Some(node), 0), (Some(node), 90)]);
}

#[test]
fn extracted_pages_are_copies_in_index_order() {
    let mut doc = doc_with_node_seven(3);
    let out = extract_pages(&mut doc, &[2, 7, 0]).unwrap();
    let (node, pages) = parents_and_rotations(&out);
    assert_eq!(node, ObjectId::new(2, 0));
    assert_eq!(pages, vec![(Some(node), 180), (Some(node), 0)]);
}

#[test]
fn split_parts_hold_consecutive_pages() {
    let mut doc = doc_with_node_seven(3);
    let parts = PdfSplitter::new(&mut doc).split(2).unwrap();
    assert_eq!(parts.len(), 2);
    let (n0, p0) = parents_and_rotations(&parts[0]);
    let (n1, p1) = parents_and_rotations(&parts[1]);
    assert_eq!(p0, vec![(Some(n0), 0), (Some(n0), 90)]);
    assert_eq!(p1, vec![(Some(n1), 180)]);
}

fn contents_of(doc: &Document, page: ObjectId) -> CosObject {
    match doc.get_object_ref(page) {
        Some(CosObject::Dictionary(d)) => d.get(&CosName::contents()).unwrap().deep_clone(),
        _ => panic!("page is not a dictionary"),
    }
}

fn stream_data_of(doc: &Document, id: ObjectId) -> Vec<u8> {
    match doc.get_object_ref(id) {
        Some(CosObject::Stream(s)) => s.data.clone(),
        _ => panic!("not a stream"),
    }
}

#[test]
fn test_add_watermark_empty_doc() {
    let doc = Document::empty();
    assert_eq!(doc.page_count(), 0);
    let mut doc = Document::empty();
    assert!(add_watermark_streams(&mut doc, &[], false).is_ok());
    assert!(doc.objects.is_empty());
}

#[test]
fn watermark_text_is_escaped_and_closed() {
    let s = watermark_text_stream(b"q\nBT\n", "a(b)c\\d");
    assert_eq!(s, b"q\nBT\n(a\\(b\\)c\\\\d) Tj\nET\nQ\n".to_vec());
}

#[test]
fn watermark_overlays_after_content() {
    let mut doc = minimal_doc();
    let page = ObjectId::new(3, 0);
    add_watermark_streams(&mut doc, &[b"MARK".to_vec()], false).unwrap();
    let arr = match contents_of(&doc, page) {
        CosObject::Array(a) => a,
        other => panic!("expected an array, got {:?}", other),
    };
    assert_eq!(arr.len(), 2);
    assert_eq!(arr[0], CosObject::Reference(ObjectId::new(4, 0)));
    let added = arr[1].as_reference().unwrap();
    assert_eq!(added.object_number, 5);
    assert_eq!(stream_data_of(&doc, added), b"MARK".to_vec());
    match doc.get_object_ref(added) {
        Some(CosObject::Stream(s)) => assert_eq!(s.dictionary.get_int(&CosName::length()), Some(4)),
        _ => panic!("not a stream"),
    }
}

#[test]
fn watermark_underlay_goes_first() {
    let mut doc = minimal_doc();
    add_watermark_streams(&mut doc, &[b"UNDER".to_vec()], true).unwrap();
    match contents_of(&doc, ObjectId::new(3, 0)) {
        CosObject::Array(a) => {
            assert_eq!(a.len(), 2);
            assert_eq!(a[1], CosObject::Reference(ObjectId::new(4, 0)));
            assert_eq!(stream_data_of(&doc, a[0].as_reference().unwrap()), b"UNDER".to_vec());
        }
        other => panic!("expected an array, got {:?}", other),
    }
}

#[test]
fn watermark_registers_helvetica() {
    let mut doc = minimal_doc();
    add_watermark_streams(&mut doc, &[b"X".to_vec()], false).unwrap();
    let page = match doc.get_object_ref(ObjectId::new(3, 0)) {
        Some(CosObject::Dictionary(d)) => d.deep_clone(),
        _ => panic!("page missing"),
    };
    let res = page.get_dictionary(&name("Resources")).unwrap();
    let fonts = res.get_dictionary(&name("Font")).unwrap();
    let helv = fonts.get_dictionary(&name("Helvetica")).unwrap();
    assert_eq!(helv.get_name(&name("BaseFont")), Some(&name("Helvetica")));
    assert_eq!(helv.get_name(&name("Subtype")), Some(&name("Type1")));
}

#[test]
fn ensure_helvetica_keeps_an_existing_font() {
    let mut doc = minimal_doc();
    let page = ObjectId::new(3, 0);
    ensure_helvetica_font(&mut doc, page).unwrap();
    let once = doc.get_object_ref(page).unwrap().deep_clone();
    ensure_helvetica_font(&mut doc, page).unwrap();
    assert_eq!(doc.get_object_ref(page).unwrap(), &once);
}

#[test]
fn watermark_appends_to_a_contents_array() {
    let mut doc = minimal_doc();
    let page = ObjectId::new(3, 0);
    add_watermark_streams(&mut doc, &[b"A".to_vec()], false).unwrap();
    add_watermark_streams(&mut doc, &[b"B".to_vec()], false).unwrap();
    match contents_of(&doc, page) {
        CosObject::Array(a) => {
            assert_eq!(a.len(), 3);
            assert_eq!(stream_data_of(&doc, a[2].as_reference().unwrap()), b"B".to_vec());
        }
        other => panic!("expected an array, got {:?}", other),
    }
}

fn placement() -> OverlayPlacement {
    OverlayPlacement { transform: b"1 0 0 1 0 0 cm\n".to_vec(), width: b"612".to_vec(), height: b"792".to_vec() }
}

#[test]
fn test_overlay_empty_overlay_doc() -> PdfResult<()> {
    let mut base = minimal_doc();
    let before = base.objects.len();
    let empty_overlay = Document::empty();
    let result = overlay_pages(&mut base, &empty_overlay, &[placement()]);
    assert!(result.is_ok());
    assert_eq!(base.objects.len(), before);
    Ok(())
}

#[test]
fn test_overlay_full_page_no_crash() -> PdfResult<()> {
    let mut base = minimal_doc();
    let overlay = minimal_doc();
    overlay_pages(&mut base, &overlay, &[placement()])?;
    let contents = contents_of(&base, ObjectId::new(3, 0));
    assert!(matches!(contents, CosObject::Array(_)));
    Ok(())
}

#[test]
fn overlay_embeds_the_overlay_page_as_a_form() {
    let mut base = minimal_doc();
    let overlay = minimal_doc();
    overlay_pages(&mut base, &overlay, &[placement()]).unwrap();
    let page = match base.get_object_ref(ObjectId::new(3, 0)) {
        Some(CosObject::Dictionary(d)) => d.deep_clone(),
        _ => panic!("page missing"),
    };
    let xo = page.get_dictionary(&name("Resources")).unwrap().get_dictionary(&name("XObject")).unwrap();
    let form_id = xo.get(&name("Ov0")).unwrap().as_reference().unwrap();
    assert_eq!(form_id.object_number, 5);
    match base.get_object_ref(form_id) {
        Some(CosObject::Stream(s)) => {
            assert_eq!(s.data, b"BT /F1 12 Tf (Hello) Tj ET".to_vec());
            assert_eq!(s.dictionary.get_name(&name("Subtype")), Some(&name("Form")));
        }
        _ => panic!("form missing"),
    }
    let arr = match contents_of(&base, ObjectId::new(3, 0)) {
        CosObject::Array(a) => a,
        other => panic!("expected an array, got {:?}", other),
    };
    assert_eq!(arr.len(), 2);
    assert_eq!(stream_data_of(&base, arr[1].as_reference().unwrap()), b"q\n1 0 0 1 0 0 cm\n/Ov0 Do\nQ\n".to_vec());
}

#[test]
fn overlay_reuses_the_last_overlay_page() {
    let mut base = two_page_doc();
    let overlay = minimal_doc();
    overlay_pages(&mut base, &overlay, &[placement(), placement()]).unwrap();
    let page2 = match base.get_object_ref(ObjectId::new(4, 0)) {
        Some(CosObject::Dictionary(d)) => d.deep_clone(),
        _ => panic!("page missing"),
    };
    let xo = page2.get_dictionary(&name("Resources")).unwrap().get_dictionary(&name("XObject")).unwrap();
    let form_id = xo.get(&name("Ov1")).unwrap().as_reference().unwrap();
    assert_eq!(stream_data_of(&base, form_id), b"BT /F1 12 Tf (Hello) Tj ET".to_vec());
}

#[test]
fn overlay_onto_a_base_without_catalog_is_an_error() {
    let mut base = Document::empty();
    let overlay = minimal_doc();
    assert!(overlay_pages(&mut base, &overlay, &[]).is_err());
}

#[test]
fn watermark_gives_each_page_its_own_stream() {
    let mut doc = two_page_doc();
    add_watermark_streams(&mut doc, &[b"ONE".to_vec(), b"TWO".to_vec()], false).unwrap();
    let last = |page: ObjectId| match contents_of(&doc, page) {
        CosObject::Array(a) => a[a.len() - 1].as_reference().unwrap(),
        other => panic!("expected an array, got {:?}", other),
    };
    let (a, b) = (last(ObjectId::new(3, 0)), last(ObjectId::new(4, 0)));
    assert_ne!(a, b);
    assert_eq!(stream_data_of(&doc, a), b"ONE".to_vec());
    assert_eq!(stream_data_of(&doc, b), b"TWO".to_vec());
}

#[test]
fn overlay_form_and_stream_get_their_own_ids() {
    let mut base = two_page_doc();
    let overlay = minimal_doc();
    overlay_pages(&mut base, &overlay, &[placement(), placement()]).unwrap();
    let mut ids = Vec::new();
    for (i, page) in [ObjectId::new(3, 0), ObjectId::new(4, 0)].into_iter().enumerate() {
        let d = match base.get_object_ref(page) {
            Some(CosObject::Dictionary(d)) => d.deep_clone(),
            _ => panic!("page missing"),
        };
        let xo = d.get_dictionary(&name("Resources")).unwrap().get_dictionary(&name("XObject")).unwrap();
        ids.push(xo.get(&name(&format!("Ov{i}"))).unwrap().as_reference().unwrap());
        match contents_of(&base, page) {
            CosObject::Array(a) => ids.push(a[a.len() - 1].as_reference().unwrap()),
            other => panic!("expected an array, got {:?}", other),
        }
    }
    for x in 0..ids.len() {
        for y in x + 1..ids.len() {
            assert_ne!(ids[x], ids[y]);
        }
    }
}

#[test]
fn built_document_has_one_page_of_the_given_size() {
    let doc = pdfbox::pdmodel::builder::build_single_page(b"612", b"792");
    assert_eq!(doc.page_count(), 1);
    let page = match doc.get_object_ref(ObjectId::new(3, 0)) {
        Some(CosObject::Dictionary(d)) => d.deep_clone(),
        _ => panic!("page missing"),
    };
    let mb = page.get(&name("MediaBox")).unwrap().as_array().unwrap();
    assert_eq!(mb[2], CosObject::Real(b"612".to_vec()));
    assert_eq!(mb[3], CosObject::Real(b"792".to_vec()));
    assert!(doc.xref.get(&ObjectId::new(2, 0)).is_some());
}

#[test]
fn watermark_on_a_built_document() {
    let mut doc = pdfbox::pdmodel::builder::build_single_page(b"595.28", b"841.89");
    add_watermark_streams(&mut doc, &[b"W".to_vec()], false).unwrap();
    assert!(matches!(contents_of(&doc, ObjectId::new(3, 0)), CosObject::Reference(_)));
}

use pdfbox::cos::{CosDictionary, CosName, CosObject, CosStream, ObjectId};
use pdfbox::image_extract::xobject::{do_operand_names, images_from_content, inline_images_well_formed};
use pdfbox::parser::xref::XRefEntry;
use pdfbox::{Document, ObjectStore, PdfError};

fn name(s: &str) -> CosName {
    CosName::new(s.as_bytes().to_vec())
}

fn names_of(content: &[u8]) -> Vec<String> {
    do_operand_names(content).iter().map(|n| String::from_utf8(n.as_bytes().to_vec()).unwrap()).collect()
}

fn image_stream(width: i64, height: i64) -> CosStream {
    let mut d = CosDictionary::new();
    d.insert(name("Type"), CosObject::Name(name("XObject")));
    d.insert(name("Subtype"), CosObject::Name(name("Image")));
    d.insert(name("Width"), CosObject::Integer(width));
    d.insert(name("Height"), CosObject::Integer(height));
    d.insert(name("BitsPerComponent"), CosObject::Integer(8));
    d.insert(name("ColorSpace"), CosObject::Name(name("DeviceRGB")));
    CosStream::new(d, vec![1, 2, 3])
}

/// A one-page document whose page draws `content` with `/Im1` an image
/// XObject (object 4) in its resources.
fn doc_with_content(content: &[u8]) -> Document {
    let catalog_id = ObjectId::new(1, 0);
    let pages_id = ObjectId::new(2, 0);
    let page_id = ObjectId::new(3, 0);
    let image_id = ObjectId::new(4, 0);
    let content_id = ObjectId::new(5, 0);
    let mut doc = Document::empty();
    doc.xref.trailer.insert(name("Root"), CosObject::Reference(catalog_id));
    let mut catalog = CosDictionary::new();
    catalog.insert(name("Type"), CosObject::Name(name("Catalog")));
    catalog.insert(name("Pages"), CosObject::Reference(pages_id));
    doc.insert_object(catalog_id, CosObject::Dictionary(catalog));
    let mut pages = CosDictionary::new();
    pages.insert(name("Type"), CosObject::Name(name("Pages")));
    pages.insert(name("Kids"), CosObject::Array(vec![CosObject::Reference(page_id)]));
    pages.insert(name("Count"), CosObject::Integer(1));
    doc.insert_object(pages_id, CosObject::Dictionary(pages));
    let mut xobjects = CosDictionary::new();
    xobjects.insert(name("Im1"), CosObject::Reference(image_id));
    let mut resources = CosDictionary::new();
    resources.insert(name("XObject"), CosObject::Dictionary(xobjects));
    let mut page = CosDictionary::new();
    page.insert(name("Type"), CosObject::Name(name("Page")));
    page.insert(name("Parent"), CosObject::Reference(pages_id));
    page.insert(name("Resources"), CosObject::Dictionary(resources));
    page.insert(name("Contents"), CosObject::Reference(content_id));
    doc.insert_object(page_id, CosObject::Dictionary(page));
    doc.insert_object(image_id, CosObject::Stream(image_stream(4, 2)));
    doc.insert_object(content_id, CosObject::Stream(CosStream::new(CosDictionary::new(), content.to_vec())));
    for id in [catalog_id, pages_id, page_id, image_id, content_id] {
        doc.xref.insert_if_absent(id, XRefEntry::InUse { offset: 0, generation: 0 });
    }
    doc
}

#[test]
fn do_names_in_order() {
    assert_eq!(names_of(b"q 1 0 0 1 0 0 cm /Im1 Do Q /Im2 Do"), vec!["Im1", "Im2"]);
}

#[test]
fn do_with_other_operands_is_ignored() {
    assert_eq!(names_of(b"/Im1 /Im2 Do 5 Do /Im3 Do"), vec!["Im3"]);
}

#[test]
fn do_names_skip_inline_image_data() {
    assert_eq!(names_of(b"BI /W 1 /H 1 ID \xff)Do( EI /Im9 Do"), vec!["Im9"]);
}

#[test]
fn inline_data_ending_before_start_is_rejected() {
    assert!(inline_images_well_formed(b"q BI /W 1 /H 1 ID x EI Q"));
    assert!(!inline_images_well_formed(b"BI /W 1 ID EI Q"));
}

#[test]
fn extract_images_reports_each_xobject_once() {
    let doc = doc_with_content(b"q /Im1 Do Q q /Im1 Do Q");
    let images = doc.extract_images(0).unwrap();
    assert_eq!(images.len(), 1);
    let img = &images[0];
    assert_eq!(img.object_id(), Some(ObjectId::new(4, 0)));
    assert_eq!(img.resource_name(), "Im1");
    assert_eq!((img.width(), img.height(), img.bits_per_component()), (4, 2, 8));
    assert_eq!(img.color_space(), Some("DeviceRGB"));
    assert_eq!(img.encoded_bytes(), &[1, 2, 3]);
}

#[test]
fn extract_images_puts_inline_images_first() {
    let doc = doc_with_content(b"/Im1 Do BI /W 2 /H 3 /BPC 8 /CS /G ID ab EI");
    let images = doc.extract_images(0).unwrap();
    assert_eq!(images.len(), 2);
    assert_eq!(images[0].resource_name(), "inline_1");
    assert_eq!(images[0].color_space(), Some("DeviceGray"));
    assert_eq!(images[1].resource_name(), "Im1");
}

#[test]
fn extract_images_page_out_of_range() {
    let doc = doc_with_content(b"/Im1 Do");
    assert!(matches!(doc.extract_images(1), Err(PdfError::Parse { .. })));
}

#[test]
fn images_from_content_without_resources() {
    let page = CosDictionary::new();
    let store = ObjectStore::new();
    let images = images_from_content(&page, b"/Im1 Do", &store).unwrap();
    assert!(images.is_empty());
}

#[test]
fn page_content_bytes_join_streams() {
    let mut doc = doc_with_content(b"A");
    let extra = ObjectId::new(6, 0);
    doc.insert_object(extra, CosObject::Stream(CosStream::new(CosDictionary::new(), b"B".to_vec())));
    let mut page = CosDictionary::new();
    page.insert(
        name("Contents"),
        CosObject::Array(vec![CosObject::Reference(ObjectId::new(5, 0)), CosObject::Reference(extra)]),
    );
    assert_eq!(doc.page_content_bytes(&page).unwrap(), b"A\nB".to_vec());
    assert_eq!(doc.page_object_ids(), vec![ObjectId::new(3, 0)]);
}

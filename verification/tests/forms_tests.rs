use pdfbox::cos::{CosDictionary, CosName, CosObject, CosStream, ObjectId};
use pdfbox::document::{Document, ObjectStore};
use pdfbox::forms::appearance::{get_da, get_field_name, get_field_value_as_string};
use pdfbox::forms::export::{escape_pdf_string, export_fdf, export_xfdf, serialize_cos, xml_escape};
use pdfbox::forms::flatten::{
    cleanup_acroform, flatten_all_fields, flatten_fields, form_field_ids, remove_fields_from_acroform,
    remove_widget_from_page,
};
use pdfbox::forms::{get_field_value_for_export, set_field_value, PdAcroForm, PdField, PdWidget, XfaForm};

fn name(s: &str) -> CosName {
    CosName::new(s.as_bytes().to_vec())
}

fn make_test_doc_with_field(ft: &[u8], ff_flags: i64) -> Document {
    let cat_id = ObjectId::new(1, 0);
    let pages_id = ObjectId::new(2, 0);
    let page_id = ObjectId::new(3, 0);
    let acro_id = ObjectId::new(4, 0);
    let field_id = ObjectId::new(5, 0);
    let mut doc = Document::empty();

    let mut acro_dict = CosDictionary::new();
    acro_dict.insert(name("Fields"), CosObject::Array(vec![CosObject::Reference(field_id)]));
    doc.insert_object(acro_id, CosObject::Dictionary(acro_dict));

    let mut field_dict = CosDictionary::new();
    if !ft.is_empty() {
        field_dict.insert(name("FT"), CosObject::Name(CosName::new(ft.to_vec())));
        field_dict.insert(name("T"), CosObject::String(b"TestField".to_vec()));
        field_dict.insert(name("V"), CosObject::String(b"Hello".to_vec()));
    }
    if ff_flags != 0 {
        field_dict.insert(name("Ff"), CosObject::Integer(ff_flags));
    }
    doc.insert_object(field_id, CosObject::Dictionary(field_dict));

    let mut cat = CosDictionary::new();
    cat.insert(name("Type"), CosObject::Name(name("Catalog")));
    cat.insert(name("Pages"), CosObject::Reference(pages_id));
    cat.insert(name("AcroForm"), CosObject::Reference(acro_id));
    doc.insert_object(cat_id, CosObject::Dictionary(cat));

    let mut pages = CosDictionary::new();
    pages.insert(name("Type"), CosObject::Name(name("Pages")));
    pages.insert(name("Count"), CosObject::Integer(1));
    pages.insert(name("Kids"), CosObject::Array(vec![CosObject::Reference(page_id)]));
    doc.insert_object(pages_id, CosObject::Dictionary(pages));

    let mut page = CosDictionary::new();
    page.insert(name("Type"), CosObject::Name(name("Page")));
    page.insert(name("Parent"), CosObject::Reference(pages_id));
    page.insert(
        name("MediaBox"),
        CosObject::Array(vec![
            CosObject::Integer(0),
            CosObject::Integer(0),
            CosObject::Integer(612),
            CosObject::Integer(792),
        ]),
    );
    doc.insert_object(page_id, CosObject::Dictionary(page));
    doc.xref.trailer.insert(name("Root"), CosObject::Reference(cat_id));
    doc
}

fn field_of(doc: &Document) -> PdField<'_> {
    let field_id = ObjectId::new(5, 0);
    let dict = doc.objects.get(&field_id).and_then(|o| o.as_dictionary()).unwrap();
    PdField::new(field_id, dict, &doc.objects)
}

#[test]
fn test_field_type_text() {
    let doc = make_test_doc_with_field(b"Tx", 0);
    assert!(matches!(field_of(&doc), PdField::TextField { .. }));
}

#[test]
fn test_field_type_checkbox() {
    let doc = make_test_doc_with_field(b"Btn", 0);
    assert!(matches!(field_of(&doc), PdField::CheckBox { .. }));
}

#[test]
fn test_field_type_pushbutton() {
    let doc = make_test_doc_with_field(b"Btn", 0x10000);
    assert!(matches!(field_of(&doc), PdField::PushButton { .. }));
}

#[test]
fn test_field_type_radio() {
    let doc = make_test_doc_with_field(b"Btn", 0x8000);
    assert!(matches!(field_of(&doc), PdField::RadioButton { .. }));
}

#[test]
fn test_field_type_combobox() {
    let doc = make_test_doc_with_field(b"Ch", 0x20000);
    assert!(matches!(field_of(&doc), PdField::ComboBox { .. }));
}

#[test]
fn test_field_type_listbox() {
    let doc = make_test_doc_with_field(b"Ch", 0);
    assert!(matches!(field_of(&doc), PdField::ListBox { .. }));
}

#[test]
fn test_field_type_signature() {
    let doc = make_test_doc_with_field(b"Sig", 0);
    assert!(matches!(field_of(&doc), PdField::SignatureField { .. }));
}

#[test]
fn test_field_type_unknown() {
    let doc = make_test_doc_with_field(b"Xxx", 0);
    assert!(matches!(field_of(&doc), PdField::Unknown { .. }));
}

#[test]
fn field_without_type_is_unknown_and_unnamed() {
    let doc = make_test_doc_with_field(b"", 0);
    let f = field_of(&doc);
    assert!(matches!(f, PdField::Unknown { .. }));
    assert_eq!(f.fully_qualified_name(), "");
    assert!(f.value().is_none());
}

#[test]
fn test_field_name() {
    let doc = make_test_doc_with_field(b"Tx", 0);
    assert_eq!(field_of(&doc).fully_qualified_name(), "TestField");
}

#[test]
fn field_name_drops_surrounding_parentheses() {
    let mut d = CosDictionary::new();
    d.insert(name("T"), CosObject::String(b"((a(b)c))".to_vec()));
    let store = ObjectStore::new();
    let f = PdField::new(ObjectId::new(9, 0), &d, &store);
    assert_eq!(f.fully_qualified_name(), "a(b)c");
    assert_eq!(f.id(), ObjectId::new(9, 0));
}

#[test]
fn test_field_value_accessor() {
    let doc = make_test_doc_with_field(b"Tx", 0);
    let f = field_of(&doc);
    let v = f.value();
    assert!(v.is_some());
    assert_eq!(v.unwrap().as_string(), Some(&b"Hello"[..]));
}

#[test]
fn test_set_field_value() {
    let mut doc = make_test_doc_with_field(b"Tx", 0);
    let field_id = ObjectId::new(5, 0);
    let acro_id = ObjectId::new(4, 0);
    set_field_value(&mut doc, field_id, "NewVal");
    let fd = doc.objects.get(&field_id).and_then(|o| o.as_dictionary()).unwrap();
    assert_eq!(fd.get(&name("V")).and_then(|o| o.as_string()), Some(&b"NewVal"[..]));
    let ad = doc.objects.get(&acro_id).and_then(|o| o.as_dictionary()).unwrap();
    assert_eq!(ad.get(&name("NeedAppearances")), Some(&CosObject::Bool(true)));
}

#[test]
fn test_export_string() {
    let mut dict = CosDictionary::new();
    dict.insert(name("V"), CosObject::String(b"Hello".to_vec()));
    assert_eq!(get_field_value_for_export(&dict).as_deref(), Some("Hello"));
}

#[test]
fn test_export_name_selected() {
    let mut dict = CosDictionary::new();
    dict.insert(name("V"), CosObject::Name(name("Yes")));
    assert_eq!(get_field_value_for_export(&dict).as_deref(), Some("Yes"));
}

#[test]
fn test_export_name_off() {
    let mut dict = CosDictionary::new();
    dict.insert(name("V"), CosObject::Name(name("Off")));
    assert!(get_field_value_for_export(&dict).is_none());
}

#[test]
fn test_export_array() {
    let mut dict = CosDictionary::new();
    dict.insert(
        name("V"),
        CosObject::Array(vec![CosObject::String(b"A".to_vec()), CosObject::String(b"B".to_vec())]),
    );
    assert_eq!(get_field_value_for_export(&dict).as_deref(), Some("A\nB"));
}

#[test]
fn export_array_without_strings_is_none() {
    let mut dict = CosDictionary::new();
    dict.insert(name("V"), CosObject::Array(vec![CosObject::Integer(1)]));
    assert!(get_field_value_for_export(&dict).is_none());
    dict.insert(name("V"), CosObject::Integer(3));
    assert!(get_field_value_for_export(&dict).is_none());
}

#[test]
fn test_export_missing() {
    let dict = CosDictionary::new();
    assert!(get_field_value_for_export(&dict).is_none());
}

fn acro_of(doc: &Document) -> PdAcroForm<'_> {
    let cat = doc.catalog().unwrap();
    let ad = cat
        .get(&name("AcroForm"))
        .and_then(|v| doc.objects.resolve(v))
        .and_then(|o| o.as_dictionary())
        .unwrap();
    PdAcroForm::new(ad, &doc.objects)
}

#[test]
fn test_acro_form_fields() {
    let doc = make_test_doc_with_field(b"Tx", 0);
    assert_eq!(acro_of(&doc).fields().len(), 1);
}

#[test]
fn test_acro_form_get_field() {
    let doc = make_test_doc_with_field(b"Tx", 0);
    assert!(acro_of(&doc).get_field("TestField").is_some());
    assert!(acro_of(&doc).get_field("Other").is_none());
}

#[test]
fn test_acro_form_no_xfa() {
    let doc = make_test_doc_with_field(b"Tx", 0);
    assert!(!acro_of(&doc).has_xfa());
}

#[test]
fn document_acro_form_resolves_reference() {
    let doc = make_test_doc_with_field(b"Tx", 0);
    let form = doc.acro_form().unwrap();
    assert_eq!(form.fields()[0].id(), ObjectId::new(5, 0));
    assert!(Document::empty().acro_form().is_none());
}

// ── PdAcroForm ─────────────────────────────────────────────────────────

#[test]
fn pd_acro_form_empty_fields() {
    let store = ObjectStore::new();
    let dict = CosDictionary::new();
    let form = PdAcroForm::new(&dict, &store);
    assert!(form.fields().is_empty());
}

#[test]
fn pd_acro_form_has_xfa_true() {
    let mut dict = CosDictionary::new();
    dict.insert(name("XFA"), CosObject::Null);
    let store = ObjectStore::new();
    let form = PdAcroForm::new(&dict, &store);
    assert!(form.has_xfa());
}

#[test]
fn pd_acro_form_has_xfa_false() {
    let dict = CosDictionary::new();
    let store = ObjectStore::new();
    let form = PdAcroForm::new(&dict, &store);
    assert!(!form.has_xfa());
}

#[test]
fn pd_acro_form_get_field_not_found_empty() {
    let store = ObjectStore::new();
    let dict = CosDictionary::new();
    let form = PdAcroForm::new(&dict, &store);
    assert!(form.get_field("NonExistent").is_none());
}

#[test]
fn pd_acro_form_is_hybrid_xfa_false_no_fields() {
    let store = ObjectStore::new();
    let mut dict = CosDictionary::new();
    dict.insert(name("XFA"), CosObject::Null);
    let form = PdAcroForm::new(&dict, &store);
    assert!(!form.is_hybrid_xfa());
}

#[test]
fn pd_acro_form_is_hybrid_xfa_false_no_xfa() {
    let store = ObjectStore::new();
    let mut dict = CosDictionary::new();
    dict.insert(name("Fields"), CosObject::Array(vec![CosObject::Reference(ObjectId::new(1, 0))]));
    let form = PdAcroForm::new(&dict, &store);
    assert!(!form.is_hybrid_xfa());
}

#[test]
fn pd_acro_form_is_hybrid_with_fields_and_xfa() {
    let mut doc = make_test_doc_with_field(b"Tx", 0);
    let acro_id = ObjectId::new(4, 0);
    let mut acro = doc.objects.take(&acro_id).unwrap();
    if let CosObject::Dictionary(d) = &mut acro {
        d.insert(name("XFA"), CosObject::String(b"<xdp/>".to_vec()));
    }
    doc.insert_object(acro_id, acro);
    let form = doc.acro_form().unwrap();
    assert!(form.is_hybrid_xfa());
    let xfa = form.xfa().unwrap();
    assert_eq!(xfa.raw_xml(), b"<xdp/>");
}

#[test]
fn pd_acro_form_dictionary_accessor() {
    let mut dict = CosDictionary::new();
    dict.insert(name("Test"), CosObject::Integer(42));
    let store = ObjectStore::new();
    let form = PdAcroForm::new(&dict, &store);
    assert_eq!(form.dictionary().get(&name("Test")).and_then(|v| v.as_integer()), Some(42));
}

// ── widgets ────────────────────────────────────────────────────────────

fn make_widget_dict() -> (CosDictionary, ObjectStore, ObjectId) {
    let store = ObjectStore::new();
    let id = ObjectId::new(10, 0);
    let mut dict = CosDictionary::new();
    dict.insert(name("Type"), CosObject::Name(name("Annot")));
    dict.insert(name("Subtype"), CosObject::Name(name("Widget")));
    dict.insert(
        name("Rect"),
        CosObject::Array(vec![
            CosObject::Integer(0),
            CosObject::Integer(0),
            CosObject::Integer(100),
            CosObject::Integer(50),
        ]),
    );
    (dict, store, id)
}

#[test]
fn test_widget_new() {
    let (dict, store, id) = make_widget_dict();
    let w = PdWidget::new(id, &dict, &store);
    assert_eq!(w.id, id);
}

#[test]
fn test_widget_type_subtype() {
    let (dict, store, id) = make_widget_dict();
    let w = PdWidget::new(id, &dict, &store);
    assert_eq!(w.dict.get(&name("Type")), Some(&CosObject::Name(name("Annot"))));
    assert_eq!(w.dict.get(&name("Subtype")), Some(&CosObject::Name(name("Widget"))));
}

#[test]
fn test_widget_rect() {
    let (dict, store, id) = make_widget_dict();
    let w = PdWidget::new(id, &dict, &store);
    assert!(w.dict.get(&name("Rect")).is_some());
}

#[test]
fn test_widget_missing_da() {
    let (dict, store, id) = make_widget_dict();
    let w = PdWidget::new(id, &dict, &store);
    assert!(w.dict.get(&name("DA")).is_none());
    assert!(w.dict.get(&name("FT")).is_none());
}

#[test]
fn test_widget_debug_formats() {
    let (dict, store, id) = make_widget_dict();
    let w = PdWidget::new(id, &dict, &store);
    let debug = format!("{:?}", w);
    assert!(debug.contains("PdWidget"));
}

#[test]
fn test_widget_clone() {
    let (dict, store, id) = make_widget_dict();
    let w1 = PdWidget::new(id, &dict, &store);
    let w2 = w1.clone();
    assert_eq!(w1.id, w2.id);
}

#[test]
fn test_widget_large_rect() {
    let mut dict = make_widget_dict().0;
    dict.insert(
        name("Rect"),
        CosObject::Array(vec![
            CosObject::Integer(0),
            CosObject::Integer(0),
            CosObject::Integer(10000),
            CosObject::Integer(8000),
        ]),
    );
    let store = ObjectStore::new();
    let w = PdWidget::new(ObjectId::new(1, 0), &dict, &store);
    let arr = w.dict.get(&name("Rect")).unwrap().as_array().unwrap();
    assert_eq!(arr.len(), 4);
}

// ── XFA ────────────────────────────────────────────────────────────────

#[test]
fn xfa_from_single_stream() {
    let mut store = ObjectStore::new();
    let mut form = CosDictionary::new();
    let stream = CosStream::new(CosDictionary::new(), b"<xfa>single</xfa>".to_vec());
    store.insert(ObjectId::new(10, 0), CosObject::Stream(stream));
    form.insert(name("XFA"), CosObject::Reference(ObjectId::new(10, 0)));
    let xfa = XfaForm::from_acro_form_dict(&form, &store).unwrap();
    assert_eq!(xfa.packets().len(), 1);
    assert_eq!(xfa.packets()[0].name(), None);
    assert_eq!(xfa.packets()[0].xml(), b"<xfa>single</xfa>");
    assert_eq!(xfa.raw_xml(), b"<xfa>single</xfa>");
}

#[test]
fn xfa_from_packet_array() {
    let mut store = ObjectStore::new();
    let mut form = CosDictionary::new();
    let template = CosStream::new(CosDictionary::new(), b"<template/>".to_vec());
    let datasets = CosStream::new(CosDictionary::new(), b"<datasets/>".to_vec());
    store.insert(ObjectId::new(20, 0), CosObject::Stream(template));
    store.insert(ObjectId::new(21, 0), CosObject::Stream(datasets));
    form.insert(
        name("XFA"),
        CosObject::Array(vec![
            CosObject::String(b"template".to_vec()),
            CosObject::Reference(ObjectId::new(20, 0)),
            CosObject::String(b"datasets".to_vec()),
            CosObject::Reference(ObjectId::new(21, 0)),
        ]),
    );
    let xfa = XfaForm::from_acro_form_dict(&form, &store).unwrap();
    assert_eq!(xfa.packets().len(), 2);
    assert_eq!(xfa.packets()[0].name(), Some("template"));
    assert_eq!(xfa.packets()[0].xml(), b"<template/>");
    assert_eq!(xfa.packets()[1].name(), Some("datasets"));
    assert_eq!(xfa.packets()[1].xml(), b"<datasets/>");
    assert_eq!(xfa.packet_names(), vec!["template", "datasets"]);
    assert_eq!(xfa.datasets_xml(), Some(b"<datasets/>".as_slice()));
    assert_eq!(xfa.packet("Template").map(|p| p.xml()), Some(b"<template/>".as_slice()));
}

#[test]
fn xfa_missing_or_malformed_is_handled() {
    let mut store = ObjectStore::new();
    let empty_form = CosDictionary::new();
    assert!(XfaForm::from_acro_form_dict(&empty_form, &store).is_none());

    let mut malformed_form = CosDictionary::new();
    malformed_form.insert(
        name("XFA"),
        CosObject::Array(vec![
            CosObject::String(b"datasets".to_vec()),
            CosObject::Reference(ObjectId::new(99, 0)),
        ]),
    );
    let xfa = XfaForm::from_acro_form_dict(&malformed_form, &store).unwrap();
    assert!(xfa.is_empty());

    store.insert(
        ObjectId::new(99, 0),
        CosObject::Stream(CosStream::new(CosDictionary::new(), b"<ok/>".to_vec())),
    );
    let xfa_ok = XfaForm::from_acro_form_dict(&malformed_form, &store).unwrap();
    assert_eq!(xfa_ok.packets().len(), 1);
    assert_eq!(xfa_ok.packets()[0].name(), Some("datasets"));
    assert_eq!(xfa_ok.packets()[0].xml(), b"<ok/>");
}

// ── export ─────────────────────────────────────────────────────────────

fn doc_with_form() -> Document {
    let bytes = b"%PDF-1.7\n\
        1 0 obj\n<< /Type /Catalog /Pages 2 0 R /AcroForm 4 0 R >>\nendobj\n\
        2 0 obj\n<< /Type /Pages /Kids [3 0 R] /Count 1 >>\nendobj\n\
        3 0 obj\n<< /Type /Page /Parent 2 0 R /MediaBox [0 0 612 792] /Annots [5 0 R] >>\nendobj\n\
        4 0 obj\n<< /Fields [5 0 R] /DA (/Helv 10 Tf 0 g) >>\nendobj\n\
        5 0 obj\n<< /Type /Annot /Subtype /Widget /FT /Tx /T (Name) /Rect [100 700 300 720] /P 3 0 R /V (Alice) >>\nendobj\n\
        xref\n0 6\n0000000000 65535 f \n0000000009 00000 n \n0000000075 00000 n \n\
        0000000150 00000 n \n0000000288 00000 n \n0000000370 00000 n \n\
        trailer\n<< /Size 6 /Root 1 0 R >>\nstartxref\n490\n%%EOF";
    let (doc, _) = Document::load_lenient(bytes);
    doc
}

#[test]
fn test_export_fdf_non_empty() {
    let doc = doc_with_form();
    let fdf = export_fdf(&doc).unwrap();
    assert!(!fdf.is_empty(), "FDF output should not be empty");
    assert!(fdf.starts_with(b"%FDF-1.2"), "should start with FDF header");
    let s = String::from_utf8_lossy(&fdf);
    assert!(s.contains("Name"), "should contain field name");
    assert!(s.contains("Alice"), "should contain field value");
    assert!(s.contains("%%EOF"), "should end with EOF marker");
}

#[test]
fn export_fdf_exact_bytes() {
    let doc = doc_with_form();
    let fdf = export_fdf(&doc).unwrap();
    assert_eq!(
        String::from_utf8(fdf).unwrap(),
        "%FDF-1.2\n1 0 obj\n<< /FDF << /Fields [<< /T (Name)\n/V (Alice) >>] >> >>\nendobj\ntrailer\n<< /Root 1 0 R >>\n%%EOF\n"
    );
}

#[test]
fn test_export_xfdf_non_empty() {
    let doc = doc_with_form();
    let xfdf = export_xfdf(&doc).unwrap();
    assert!(!xfdf.is_empty(), "XFDF output should not be empty");
    let s = String::from_utf8_lossy(&xfdf);
    assert!(s.contains("<?xml"), "should have XML declaration");
    assert!(s.contains("<xfdf"), "should have xfdf root");
    assert!(s.contains("Name"), "should contain field name");
    assert!(s.contains("Alice"), "should contain field value");
    assert!(s.contains("    <field name=\"Name\">\n      <value>Alice</value>\n    </field>\n"));
}

#[test]
fn test_export_fdf_empty_doc() {
    let bytes = b"%PDF-1.7\n\
        1 0 obj\n<< /Type /Catalog /Pages 2 0 R >>\nendobj\n\
        2 0 obj\n<< /Type /Pages /Kids [3 0 R] /Count 1 >>\nendobj\n\
        3 0 obj\n<< /Type /Page /Parent 2 0 R /MediaBox [0 0 612 792] >>\nendobj\n\
        xref\n0 4\n0000000000 65535 f \n0000000009 00000 n \n0000000054 00000 n \n\
        0000000129 00000 n \ntrailer\n<< /Size 4 /Root 1 0 R >>\nstartxref\n194\n%%EOF";
    let (doc, _) = Document::load_lenient(bytes);
    let fdf = export_fdf(&doc).unwrap();
    assert!(fdf.is_empty(), "FDF should be empty for doc without form");
    assert!(export_xfdf(&doc).unwrap().is_empty());
}

#[test]
fn test_xml_escape() {
    assert_eq!(xml_escape("a&b"), "a&amp;b");
    assert_eq!(xml_escape("<tag>"), "&lt;tag&gt;");
    assert_eq!(xml_escape("hello"), "hello");
    assert_eq!(xml_escape("\"'"), "&quot;&apos;");
}

#[test]
fn test_escape_pdf_string() {
    let s = escape_pdf_string("a(b)c");
    assert_eq!(s, "a\\(b\\)c");
    assert_eq!(escape_pdf_string("\\\n\r\t"), "\\\\\\n\\r\\t");
}

#[test]
fn serialize_cos_forms() {
    let arr = CosObject::Array(vec![
        CosObject::Integer(-3),
        CosObject::Bool(true),
        CosObject::Null,
        CosObject::Reference(ObjectId::new(7, 1)),
    ]);
    assert_eq!(serialize_cos(&arr), "[-3 true null 7 1 R]");
}

// ── flatten steps ──────────────────────────────────────────────────────

fn create_doc_with_acroform() -> Document {
    let bytes = b"%PDF-1.7\n\
        1 0 obj\n<< /Type /Catalog /Pages 2 0 R /AcroForm 4 0 R >>\nendobj\n\
        2 0 obj\n<< /Type /Pages /Kids [3 0 R] /Count 1 >>\nendobj\n\
        3 0 obj\n<< /Type /Page /Parent 2 0 R /MediaBox [0 0 612 792] /Annots [5 0 R] >>\nendobj\n\
        4 0 obj\n<< /Fields [5 0 R] /DA (/Helv 10 Tf 0 g) >>\nendobj\n\
        5 0 obj\n<< /Type /Annot /Subtype /Widget /FT /Tx /T (test) /Rect [100 700 300 720] /P 3 0 R /V (hello) >>\nendobj\n\
        xref\n0 6\n0000000000 65535 f \n0000000009 00000 n \n0000000081 00000 n \n\
        0000000143 00000 n \n0000000237 00000 n \n0000000299 00000 n \n\
        trailer\n<< /Size 6 /Root 1 0 R >>\nstartxref\n419\n%%EOF";
    let (doc, _report) = Document::load_lenient(bytes);
    doc
}

#[test]
fn test_remove_widget_from_page() {
    let mut doc = create_doc_with_acroform();
    let widget_id = ObjectId::new(5, 0);
    {
        let tree = doc.pages().unwrap();
        let page = tree.get(0).unwrap();
        assert!(page.dictionary().get(&name("Annots")).is_some());
    }
    remove_widget_from_page(&mut doc, ObjectId::new(3, 0), widget_id);
    let tree = doc.pages().unwrap();
    let page = tree.get(0).unwrap();
    let annots = page.dictionary().get(&name("Annots"));
    assert!(annots.is_none(), "Annots should be removed after removing last widget");
}

#[test]
fn remove_widget_keeps_other_annotations() {
    let mut doc = create_doc_with_acroform();
    let page_id = ObjectId::new(3, 0);
    let mut page = doc.objects.take(&page_id).unwrap();
    if let CosObject::Dictionary(d) = &mut page {
        d.insert(
            name("Annots"),
            CosObject::Array(vec![
                CosObject::Reference(ObjectId::new(5, 0)),
                CosObject::Reference(ObjectId::new(8, 0)),
            ]),
        );
    }
    doc.insert_object(page_id, page);
    remove_widget_from_page(&mut doc, page_id, ObjectId::new(5, 0));
    let d = doc.get_object_ref(page_id).unwrap().as_dictionary().unwrap();
    let annots = d.get(&name("Annots")).and_then(|a| a.as_array()).unwrap();
    assert_eq!(annots.len(), 1);
    assert_eq!(annots[0].as_reference(), Some(ObjectId::new(8, 0)));
}

#[test]
fn test_remove_fields_from_acroform() {
    let mut doc = create_doc_with_acroform();
    assert_eq!(form_field_ids(&doc), vec![ObjectId::new(5, 0)]);
    remove_fields_from_acroform(&mut doc, &[ObjectId::new(5, 0)]);
    let catalog = doc.catalog().unwrap();
    let acro_id = catalog.get(&name("AcroForm")).and_then(|v| v.as_reference()).unwrap();
    let acro = doc.get_object_ref(acro_id).unwrap().as_dictionary().unwrap();
    assert!(acro.get(&name("Fields")).is_none(), "Fields should be removed");
    assert!(form_field_ids(&doc).is_empty());
}

#[test]
fn test_cleanup_acroform_empty_fields() {
    let mut doc = create_doc_with_acroform();
    cleanup_acroform(&mut doc);
    assert!(doc.catalog().unwrap().get(&name("AcroForm")).is_some());
    remove_fields_from_acroform(&mut doc, &[ObjectId::new(5, 0)]);
    cleanup_acroform(&mut doc);
    let acro = doc.catalog().unwrap().get(&name("AcroForm"));
    assert!(acro.is_none(), "AcroForm should be removed from catalog when empty");
}

// ── appearance inputs ──────────────────────────────────────────────────

#[test]
fn test_get_da_fallback() {
    let dict = CosDictionary::new();
    let da = get_da(&dict);
    assert!(da.contains("/Helv"));
    assert!(da.contains("10 Tf"));
}

#[test]
fn get_da_reads_field_entry() {
    let mut dict = CosDictionary::new();
    dict.insert(name("DA"), CosObject::String(b"/F1 12 Tf".to_vec()));
    assert_eq!(get_da(&dict), "/F1 12 Tf");
}

#[test]
fn test_get_field_name_empty() {
    let dict = CosDictionary::new();
    assert!(get_field_name(&dict).is_empty());
}

#[test]
fn test_get_field_value_as_string_empty() {
    let dict = CosDictionary::new();
    assert!(get_field_value_as_string(&dict).is_empty());
}

#[test]
fn get_field_value_as_string_forms() {
    let mut dict = CosDictionary::new();
    dict.insert(name("V"), CosObject::Name(name("On")));
    assert_eq!(get_field_value_as_string(&dict), "On");
    dict.insert(name("V"), CosObject::Integer(12));
    assert_eq!(get_field_value_as_string(&dict), "12");
}

// ── import ─────────────────────────────────────────────────────────────

use pdfbox::forms::import::{
    import_fdf, import_xfdf, parse_fdf_fields, parse_xfdf_fields, tokenize_fdf, unescape_pdf_string,
    xml_unescape,
};

fn doc_with_empty_field() -> Document {
    let bytes = b"%PDF-1.7\n\
        1 0 obj\n<< /Type /Catalog /Pages 2 0 R /AcroForm 4 0 R >>\nendobj\n\
        2 0 obj\n<< /Type /Pages /Kids [3 0 R] /Count 1 >>\nendobj\n\
        3 0 obj\n<< /Type /Page /Parent 2 0 R /MediaBox [0 0 612 792] /Annots [5 0 R] >>\nendobj\n\
        4 0 obj\n<< /Fields [5 0 R] /DA (/Helv 10 Tf 0 g) >>\nendobj\n\
        5 0 obj\n<< /Type /Annot /Subtype /Widget /FT /Tx /T (Name) /Rect [100 700 300 720] /P 3 0 R >>\nendobj\n\
        xref\n0 6\n0000000000 65535 f \n0000000009 00000 n \n0000000075 00000 n \n\
        0000000150 00000 n \n0000000288 00000 n \n0000000370 00000 n \n\
        trailer\n<< /Size 6 /Root 1 0 R >>\nstartxref\n490\n%%EOF";
    let (doc, _) = Document::load_lenient(bytes);
    doc
}

#[test]
fn test_parse_fdf_fields_basic() {
    let fdf = b"%FDF-1.2\n1 0 obj<< /FDF << /Fields [<< /T (Name) /V (Alice) >>] >> >>endobj\ntrailer<< /Root 1 0 R >>\n%%EOF";
    let fields = parse_fdf_fields(fdf);
    assert_eq!(fields.len(), 1);
    assert_eq!(fields[0].0, "Name");
    assert_eq!(fields[0].1, "Alice");
}

#[test]
fn test_parse_xfdf_fields_basic() {
    let xfdf = b"<?xml version=\"1.0\"?><xfdf><fields><field name=\"Name\"><value>Bob</value></field></fields></xfdf>";
    let fields = parse_xfdf_fields(xfdf);
    assert_eq!(fields.len(), 1);
    assert_eq!(fields[0].0, "Name");
    assert_eq!(fields[0].1, "Bob");
}

#[test]
fn parse_xfdf_value_search_runs_past_field_end() {
    let xfdf = b"<field name=\"A&amp;B\"></field><field name=\"C\"><value>x &lt; y</value></field>";
    let fields = parse_xfdf_fields(xfdf);
    assert_eq!(fields.len(), 1);
    assert_eq!(fields[0].0, "A&B");
    assert_eq!(fields[0].1, "x < y");
}

#[test]
fn test_import_fdf() {
    let mut doc = doc_with_empty_field();
    let fdf = b"%FDF-1.2\n1 0 obj<< /FDF << /Fields [<< /T (Name) /V (Charlie) >>] >> >>endobj\ntrailer<< /Root 1 0 R >>\n%%EOF";
    let count = import_fdf(&mut doc, fdf).unwrap();
    assert_eq!(count, 1, "should import 1 field");
    let form = doc.acro_form().unwrap();
    let field = form.get_field("Name").unwrap();
    let value = field.value().and_then(|v| v.as_string()).map(|s| String::from_utf8_lossy(s).to_string());
    assert_eq!(value, Some("Charlie".to_string()));
}

#[test]
fn import_fdf_needs_header_and_known_names() {
    let mut doc = doc_with_empty_field();
    assert_eq!(import_fdf(&mut doc, b"1 0 obj << /T (Name) /V (X) >>").unwrap(), 0);
    assert_eq!(import_fdf(&mut doc, b"%FDF-1.2 /T (Other) /V (X)").unwrap(), 0);
}

#[test]
fn test_import_xfdf() {
    let mut doc = doc_with_empty_field();
    let xfdf = b"<?xml version=\"1.0\"?><xfdf><fields><field name=\"Name\"><value>Dave</value></field></fields></xfdf>";
    let count = import_xfdf(&mut doc, xfdf).unwrap();
    assert_eq!(count, 1, "should import 1 field");
    let form = doc.acro_form().unwrap();
    let field = form.get_field("Name").unwrap();
    let value = field.value().and_then(|v| v.as_string()).map(|s| String::from_utf8_lossy(s).to_string());
    assert_eq!(value, Some("Dave".to_string()));
    let acro = doc.get_object_ref(ObjectId::new(4, 0)).unwrap().as_dictionary().unwrap();
    assert_eq!(acro.get(&name("NeedAppearances")), Some(&CosObject::Bool(true)));
}

#[test]
fn test_import_empty_fdf() {
    let mut doc = doc_with_empty_field();
    assert_eq!(import_fdf(&mut doc, b"").unwrap(), 0);
}

#[test]
fn test_import_empty_xfdf() {
    let mut doc = doc_with_empty_field();
    assert_eq!(import_xfdf(&mut doc, b"").unwrap(), 0);
}

#[test]
fn test_tokenize_fdf_simple() {
    let tokens = tokenize_fdf("/T (Name) /V (Value)");
    assert!(tokens.contains(&"/T".to_string()));
    assert!(tokens.contains(&"(Name)".to_string()));
    assert!(tokens.contains(&"/V".to_string()));
    assert!(tokens.contains(&"(Value)".to_string()));
}

#[test]
fn tokenize_fdf_exact_tokens() {
    let tokens = tokenize_fdf("<</T(a\\)b)/V/Yes>>[1 2]");
    assert_eq!(
        tokens,
        vec!["<", "<", "/T", "(a\\)b)", "/V", "/Yes", ">", ">", "[", "1", "2", "]"]
    );
}

#[test]
fn test_unescape_pdf_string() {
    assert_eq!(unescape_pdf_string("(Hello)"), "Hello");
    assert_eq!(unescape_pdf_string("(a\\(b\\)c)"), "a(b)c");
    assert_eq!(unescape_pdf_string("(a\\\\b)"), "a\\b");
}

#[test]
fn unescape_pdf_string_octal_and_trim() {
    assert_eq!(unescape_pdf_string("  (x\\101y)\n"), "xAy");
    assert_eq!(unescape_pdf_string("(\\7z)"), "\u{7}");
    assert_eq!(unescape_pdf_string("(\\777)"), "");
    assert_eq!(unescape_pdf_string("plain\\n"), "plain\n");
}

#[test]
fn test_xml_unescape() {
    assert_eq!(xml_unescape("a&amp;b"), "a&b");
    assert_eq!(xml_unescape("&lt;tag&gt;"), "<tag>");
}

#[test]
fn pdf_string_escape_then_unescape_round_trips() {
    for text in ["a(b)\\c", "line\nbreak", "plain", "", "((nested))"] {
        let token = format!("({})", escape_pdf_string(text));
        assert_eq!(unescape_pdf_string(&token), text);
    }
}

#[test]
fn test_flatten_all_fields_no_acroform() {
    let bytes = b"%PDF-1.7\n\
        1 0 obj\n<< /Type /Catalog /Pages 2 0 R >>\nendobj\n\
        2 0 obj\n<< /Type /Pages /Kids [3 0 R] /Count 1 >>\nendobj\n\
        3 0 obj\n<< /Type /Page /Parent 2 0 R /MediaBox [0 0 612 792] >>\nendobj\n\
        xref\n0 4\n0000000000 65535 f \n0000000009 00000 n \n0000000037 00000 n \n\
        0000000090 00000 n \ntrailer\n<< /Size 4 /Root 1 0 R >>\nstartxref\n143\n%%EOF";
    let (mut doc, _report) = Document::load_lenient(bytes);
    let result = flatten_all_fields(&mut doc, &[]);
    assert!(result.is_ok());
}

#[test]
fn flatten_burns_appearance_into_new_content_stream() {
    let mut doc = create_doc_with_acroform();
    let ap_id = ObjectId::new(6, 0);
    doc.insert_object(ap_id, CosObject::Stream(CosStream::new(CosDictionary::new(), b"BT ET".to_vec())));
    let field_id = ObjectId::new(5, 0);
    let mut field = doc.objects.take(&field_id).unwrap();
    if let CosObject::Dictionary(d) = &mut field {
        let mut ap = CosDictionary::new();
        ap.insert(name("N"), CosObject::Reference(ap_id));
        d.insert(name("AP"), CosObject::Dictionary(ap));
    }
    doc.insert_object(field_id, field);
    let placement = b"200 0 0 20 100 700 cm\n".to_vec();
    flatten_fields(&mut doc, &[field_id], &[Some(placement)]).unwrap();
    let page = doc.get_object_ref(ObjectId::new(3, 0)).unwrap().as_dictionary().unwrap();
    assert!(page.get(&name("Annots")).is_none());
    let cid = page.get(&name("Contents")).and_then(|v| v.as_reference()).unwrap();
    assert!(cid.object_number > 6);
    let data = doc.get_object_ref(cid).unwrap().as_stream().unwrap().data.clone();
    assert_eq!(data, b"q\n200 0 0 20 100 700 cm\nBT ET\nQ\n".to_vec());
    assert!(doc.catalog().unwrap().get(&name("AcroForm")).is_none());
}

#[test]
fn flatten_appends_to_existing_content_stream() {
    let mut doc = create_doc_with_acroform();
    let ap_id = ObjectId::new(6, 0);
    let content_id = ObjectId::new(7, 0);
    doc.insert_object(ap_id, CosObject::Stream(CosStream::new(CosDictionary::new(), b"X".to_vec())));
    doc.insert_object(content_id, CosObject::Stream(CosStream::new(CosDictionary::new(), b"A".to_vec())));
    let mut page = doc.objects.take(&ObjectId::new(3, 0)).unwrap();
    if let CosObject::Dictionary(d) = &mut page {
        d.insert(name("Contents"), CosObject::Reference(content_id));
    }
    doc.insert_object(ObjectId::new(3, 0), page);
    let mut field = doc.objects.take(&ObjectId::new(5, 0)).unwrap();
    if let CosObject::Dictionary(d) = &mut field {
        let mut states = CosDictionary::new();
        states.insert(name("Off"), CosObject::Reference(content_id));
        states.insert(name("Yes"), CosObject::Reference(ap_id));
        let mut ap = CosDictionary::new();
        ap.insert(name("N"), CosObject::Dictionary(states));
        d.insert(name("AP"), CosObject::Dictionary(ap));
    }
    doc.insert_object(ObjectId::new(5, 0), field);
    flatten_fields(&mut doc, &[ObjectId::new(5, 0)], &[Some(b"p\n".to_vec())]).unwrap();
    let s = doc.get_object_ref(content_id).unwrap().as_stream().unwrap();
    assert_eq!(s.data, b"Aq\np\nX\nQ\n".to_vec());
    assert_eq!(s.dictionary.get(&name("Length")).and_then(|v| v.as_integer()), Some(9));
}

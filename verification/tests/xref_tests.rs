use pdfbox::cos::{CosDictionary, CosName, CosObject, ObjectId};
use pdfbox::parser::xref::{find_startxref, load_xref, parse_xref_table, read_ascii_u32, read_be_uint, read_stream_data, XRefEntry, XRefTable};

#[test]
fn find_startxref_basic() {
    let data = b"%PDF-1.4\n%%EOF\nstartxref\n42\n%%EOF\n";
    assert_eq!(find_startxref(data, 1024).unwrap(), 42);
}

#[test]
fn find_startxref_with_crlf() {
    let data = b"%PDF-1.4\r\n%%EOF\r\nstartxref\r\n100\r\n%%EOF\r\n";
    assert_eq!(find_startxref(data, 1024).unwrap(), 100);
}

#[test]
fn find_startxref_missing_returns_error() {
    let data = b"%PDF-1.4\n%%EOF\n";
    assert!(find_startxref(data, 1024).is_err());
}

#[test]
fn find_startxref_only_in_tail() {
    let mut data = b"startxref\n0\n".to_vec();
    data.extend_from_slice(&[b'x'; 2000]);
    data.extend_from_slice(b"startxref\n99\n%%EOF\n");
    assert_eq!(find_startxref(&data, 1024).unwrap(), 99);
}

fn make_minimal_pdf_xref_table() -> Vec<u8> {
    let mut pdf = b"%PDF-1.4\n".to_vec();
    let obj1_offset = pdf.len();
    pdf.extend_from_slice(b"1 0 obj\n<< /Type /Catalog >>\nendobj\n");
    let xref_offset = pdf.len();
    let obj1_off_str = format!("{:010} 00000 n \r\n", obj1_offset);
    pdf.extend_from_slice(b"xref\n");
    pdf.extend_from_slice(b"0 2\n");
    pdf.extend_from_slice(b"0000000000 65535 f \r\n");
    pdf.extend_from_slice(obj1_off_str.as_bytes());
    pdf.extend_from_slice(b"trailer\n<< /Size 2 /Root 1 0 R >>\n");
    pdf.extend_from_slice(format!("startxref\n{}\n%%EOF\n", xref_offset).as_bytes());
    pdf
}

#[test]
fn parse_traditional_xref_table_basic() {
    let pdf = make_minimal_pdf_xref_table();
    let mut table = XRefTable::new();
    let xref_offset = find_startxref(&pdf, 1024).unwrap();
    parse_xref_table(&pdf, xref_offset, &mut table).unwrap();
    let id0 = ObjectId::new(0, 65535);
    assert!(matches!(table.get(&id0), Some(XRefEntry::Free { .. })));
    let id1 = ObjectId::new(1, 0);
    assert!(matches!(table.get(&id1), Some(XRefEntry::InUse { offset, .. }) if *offset > 0));
    assert_eq!(table.trailer.get_int(&CosName::new(b"Size".to_vec())), Some(2));
}

#[test]
fn load_xref_end_to_end() {
    let pdf = make_minimal_pdf_xref_table();
    let table = load_xref(&pdf).unwrap();
    assert!(table.len() >= 2);
    assert!(table.get(&ObjectId::new(1, 0)).is_some());
}

#[test]
fn read_stream_data_lf() {
    assert_eq!(read_stream_data(b"\nhello world", 0, 11).unwrap(), b"hello world");
}

#[test]
fn read_stream_data_crlf() {
    assert_eq!(read_stream_data(b"\r\nhello world", 0, 11).unwrap(), b"hello world");
}

#[test]
fn read_stream_data_past_eof() {
    assert!(read_stream_data(b"\nhello", 0, 100).is_err());
}

#[test]
fn xref_table_insert_if_absent() {
    let mut table = XRefTable::new();
    let id = ObjectId::new(1, 0);
    table.insert_if_absent(id.clone(), XRefEntry::InUse { offset: 100, generation: 0 });
    table.insert_if_absent(id.clone(), XRefEntry::InUse { offset: 999, generation: 0 });
    assert!(matches!(table.get(&id), Some(XRefEntry::InUse { offset: 100, .. })));
}

#[test]
fn xref_table_merge_trailer() {
    let mut table = XRefTable::new();
    let mut d1 = CosDictionary::new();
    d1.insert(CosName::new(b"Size".to_vec()), CosObject::Integer(5));
    table.merge_trailer(&d1);
    let mut d2 = CosDictionary::new();
    d2.insert(CosName::new(b"Size".to_vec()), CosObject::Integer(999));
    d2.insert(CosName::new(b"Root".to_vec()), CosObject::Null);
    table.merge_trailer(&d2);
    assert_eq!(table.trailer.get_int(&CosName::new(b"Size".to_vec())), Some(5));
    assert!(table.trailer.get(&CosName::new(b"Root".to_vec())).is_some());
}

#[test]
fn read_ascii_u32_basic() {
    assert_eq!(read_ascii_u32(b"123 abc"), Some((123, 3)));
    assert_eq!(read_ascii_u32(b"abc"), None);
}

#[test]
fn read_be_uint_basic() {
    assert_eq!(read_be_uint(&[0x00, 0x01, 0x86, 0xA0], 0, 4), 100_000);
    assert_eq!(read_be_uint(&[0xFF], 0, 1), 255);
    assert_eq!(read_be_uint(&[], 0, 0), 0);
}

// Further cases

#[test]
fn read_ascii_u32_overflow_is_none() {
    assert_eq!(read_ascii_u32(b"4294967296"), None);
    assert_eq!(read_ascii_u32(b"4294967295x"), Some((4294967295, 10)));
}

#[test]
fn find_startxref_offset_overflow_is_error() {
    assert!(find_startxref(b"startxref\n99999999999999999999999\n", 1024).is_err());
}

#[test]
fn parse_xref_table_offset_past_end() {
    let mut table = XRefTable::new();
    assert!(parse_xref_table(b"xref", 10, &mut table).is_err());
}

#[test]
fn prev_chain_keeps_newest_entries() {
    // An update section whose Prev points to the original section.
    let mut pdf = make_minimal_pdf_xref_table();
    let first_xref = find_startxref(&pdf, 1024).unwrap();
    let obj1b = pdf.len();
    pdf.extend_from_slice(b"1 0 obj\n<< /Type /Catalog /V 2 >>\nendobj\n");
    let second_xref = pdf.len();
    pdf.extend_from_slice(b"xref\n1 1\n");
    pdf.extend_from_slice(format!("{:010} 00000 n \r\n", obj1b).as_bytes());
    pdf.extend_from_slice(format!("trailer\n<< /Size 3 /Prev {} >>\n", first_xref).as_bytes());
    pdf.extend_from_slice(format!("startxref\n{}\n%%EOF\n", second_xref).as_bytes());
    let table = load_xref(&pdf).unwrap();
    assert!(matches!(table.get(&ObjectId::new(1, 0)), Some(XRefEntry::InUse { offset, .. }) if *offset == obj1b as u64));
    assert_eq!(table.trailer.get_int(&CosName::new(b"Size".to_vec())), Some(3));
    assert!(table.trailer.get(&CosName::new(b"Root".to_vec())).is_some());
}

#[test]
fn prev_chain_loop_is_error() {
    let mut pdf = b"%PDF-1.4\n".to_vec();
    let xref = pdf.len();
    pdf.extend_from_slice(b"xref\n0 1\n0000000000 65535 f \r\n");
    pdf.extend_from_slice(format!("trailer\n<< /Size 1 /Prev {} >>\n", xref).as_bytes());
    pdf.extend_from_slice(format!("startxref\n{}\n%%EOF\n", xref).as_bytes());
    assert!(load_xref(&pdf).is_err());
}

#[test]
fn prev_chain_older_section_fills_in() {
    let mut pdf = make_minimal_pdf_xref_table();
    let original = load_xref(&pdf).unwrap();
    let first_xref = find_startxref(&pdf, 1024).unwrap();
    let obj1b = pdf.len();
    pdf.extend_from_slice(b"1 0 obj\n<< /Type /Catalog /V 2 >>\nendobj\n");
    let second_xref = pdf.len();
    pdf.extend_from_slice(b"xref\n1 1\n");
    pdf.extend_from_slice(format!("{:010} 00000 n \r\n", obj1b).as_bytes());
    pdf.extend_from_slice(format!("trailer\n<< /Size 3 /Prev {} >>\n", first_xref).as_bytes());
    pdf.extend_from_slice(format!("startxref\n{}\n%%EOF\n", second_xref).as_bytes());
    let mut table = XRefTable::new();
    parse_xref_table(&pdf, second_xref as u64, &mut table).unwrap();
    let only_old: Vec<ObjectId> = original.entries().iter().map(|e| e.0).filter(|id| id.object_number != 1).collect();
    assert!(!only_old.is_empty());
    for id in only_old {
        assert_eq!(table.get(&id), original.get(&id));
    }
    assert!(matches!(table.get(&ObjectId::new(1, 0)), Some(XRefEntry::InUse { offset, .. }) if *offset == obj1b as u64));
}

use pdfbox::cos::{CosDictionary, CosName, CosObject};
use pdfbox::parser::xref_stream::{XRefEntry, XRefStream, XRefSubsection};

#[test]
fn xref_entry_in_use_serialization() {
    let entry = XRefEntry::InUse { offset: 1234, generation: 0 };
    let bytes = entry.to_bytes(&[1, 2, 2]);
    assert_eq!(bytes.len(), 5);
    assert_eq!(bytes[0], 1);
}

#[test]
fn xref_entry_free_serialization() {
    let entry = XRefEntry::Free { next: 99, generation: 5 };
    let bytes = entry.to_bytes(&[1, 2, 2]);
    assert_eq!(bytes[0], 0);
}

#[test]
fn xref_entry_compressed_serialization() {
    let entry = XRefEntry::Compressed { stream: 10, index: 5 };
    let bytes = entry.to_bytes(&[1, 2, 2]);
    assert_eq!(bytes[0], 2);
}

#[test]
fn xref_entry_roundtrip() {
    let entry = XRefEntry::InUse { offset: 5678, generation: 1 };
    let widths = [1, 2, 2];
    let bytes = entry.to_bytes(&widths);
    let parsed = XRefEntry::from_bytes(&bytes, &widths).unwrap();
    assert_eq!(parsed, entry);
}

#[test]
fn xref_subsection_creation() {
    let mut subsec = XRefSubsection::new(0);
    subsec.add_entry(XRefEntry::InUse { offset: 100, generation: 0 });
    subsec.add_entry(XRefEntry::InUse { offset: 200, generation: 0 });
    assert_eq!(subsec.count, 2);
    assert_eq!(subsec.entries.len(), 2);
}

#[test]
fn xref_stream_creation() {
    let xref = XRefStream::new(10);
    assert_eq!(xref.size, 10);
    assert_eq!(xref.widths, [1, 2, 2]);
}

#[test]
fn xref_stream_lookup() {
    let mut xref = XRefStream::new(10);
    let mut subsec = XRefSubsection::new(0);
    subsec.add_entry(XRefEntry::InUse { offset: 100, generation: 0 });
    subsec.add_entry(XRefEntry::InUse { offset: 200, generation: 0 });
    xref.subsections.push(subsec);
    assert!(matches!(xref.lookup(0).unwrap(), XRefEntry::InUse { offset: 100, .. }));
    assert!(matches!(xref.lookup(1).unwrap(), XRefEntry::InUse { offset: 200, .. }));
    assert!(xref.lookup(99).is_none());
}

#[test]
fn xref_entry_width_edge_cases() {
    let entry = XRefEntry::InUse { offset: 0xFFFFFFFF, generation: 0xFFFF };
    let bytes = entry.to_bytes(&[1, 4, 2]);
    assert_eq!(bytes.len(), 7);
}

#[test]
fn xref_entry_free_next_object() {
    let entry = XRefEntry::Free { next: 5, generation: 65535 };
    let widths = [1, 2, 2];
    let bytes = entry.to_bytes(&widths);
    let parsed = XRefEntry::from_bytes(&bytes, &widths).unwrap();
    assert!(matches!(parsed, XRefEntry::Free { next: 5, generation: 65535 }));
}

#[test]
fn xref_compressed_object_reference() {
    let entry = XRefEntry::Compressed { stream: 20, index: 7 };
    let widths = [1, 2, 2];
    let bytes = entry.to_bytes(&widths);
    let parsed = XRefEntry::from_bytes(&bytes, &widths).unwrap();
    assert!(matches!(parsed, XRefEntry::Compressed { stream: 20, index: 7 }));
}

// Further cases

#[test]
fn xref_entry_bytes_are_big_endian() {
    let entry = XRefEntry::InUse { offset: 0x0102, generation: 0x0304 };
    assert_eq!(entry.to_bytes(&[1, 2, 2]), vec![1, 0x01, 0x02, 0x03, 0x04]);
}

#[test]
fn xref_entry_from_bytes_unknown_type() {
    assert!(XRefEntry::from_bytes(&[3, 0, 0, 0, 0], &[1, 2, 2]).is_none());
    assert!(XRefEntry::from_bytes(&[1, 0], &[1, 2, 2]).is_none());
}

#[test]
fn xref_stream_from_stream_parses_entries() {
    let mut d = CosDictionary::new();
    d.insert(CosName::new(b"Size".to_vec()), CosObject::Integer(2));
    d.insert(CosName::new(b"W".to_vec()), CosObject::Array(vec![CosObject::Integer(1), CosObject::Integer(2), CosObject::Integer(1)]));
    let data = [1u8, 0, 17, 0, 2, 0, 5, 3];
    let s = XRefStream::from_stream(&d, &data).unwrap();
    assert_eq!(s.size, 2);
    assert_eq!(s.lookup(0), Some(XRefEntry::InUse { offset: 17, generation: 0 }));
    assert_eq!(s.lookup(1), Some(XRefEntry::Compressed { stream: 5, index: 3 }));
    let out = s.to_stream();
    assert_eq!(out.data, data.to_vec());
}

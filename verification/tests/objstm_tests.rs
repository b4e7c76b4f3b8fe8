use pdfbox::cos::{CosDictionary, CosName, CosObject};
use pdfbox::parser::objstm::ObjectStream;

#[test]
fn object_stream_creation() {
    let data = vec![1, 2, 3, 4];
    let stream = ObjectStream::new(10, 2, data.clone());
    assert_eq!(stream.first, 10);
    assert_eq!(stream.count, 2);
    assert_eq!(stream.data, data);
}

#[test]
fn object_stream_entry_lookup() {
    let mut stream = ObjectStream::new(10, 2, vec![0; 100]);
    stream.entries.insert(5, 0);
    stream.entries.insert(7, 50);
    assert!(stream.contains(5));
    assert!(stream.contains(7));
    assert!(!stream.contains(6));
}

#[test]
fn object_stream_object_numbers() {
    let mut stream = ObjectStream::new(10, 3, vec![0; 100]);
    stream.entries.insert(5, 0);
    stream.entries.insert(7, 50);
    stream.entries.insert(9, 75);
    assert_eq!(stream.object_numbers(), vec![5, 7, 9]);
}

#[test]
fn object_stream_preamble_parsing() {
    let preamble = "5 0 7 50 9 75 ";
    let mut full_data = preamble.as_bytes().to_vec();
    full_data.resize(100, 0);
    let _dict = CosDictionary::new();
    let stream = ObjectStream::new(preamble.len() as u32, 3, full_data);
    assert_eq!(stream.count, 3);
}

#[test]
fn object_stream_get_object_single() {
    let mut data = vec![0; 100];
    data[30..40].copy_from_slice(b"obj7_data!");
    let mut stream = ObjectStream::new(20, 2, data);
    stream.entries.insert(5, 0);
    stream.entries.insert(7, 10);
    let obj5 = stream.get_object(5).unwrap();
    assert_eq!(obj5.len(), 10);
    let obj7 = stream.get_object(7).unwrap();
    assert!(obj7.len() > 0);
}

#[test]
fn object_stream_round_trip() {
    let mut stream = ObjectStream::new(20, 2, vec![65; 100]);
    stream.entries.insert(10, 0);
    stream.entries.insert(11, 50);
    let cos_stream = stream.to_stream();
    assert_eq!(cos_stream.data, vec![65; 100]);
}

#[test]
fn object_stream_empty() {
    let stream = ObjectStream::new(0, 0, vec![]);
    assert_eq!(stream.object_numbers().len(), 0);
    assert!(!stream.contains(5));
}

#[test]
fn object_stream_large_object_numbers() {
    let mut stream = ObjectStream::new(100, 2, vec![0; 200]);
    stream.entries.insert(99999, 0);
    stream.entries.insert(100000, 100);
    assert!(stream.contains(99999));
    assert!(stream.contains(100000));
    assert_eq!(stream.object_numbers().len(), 2);
}

#[test]
fn object_stream_overlapping_ranges() {
    let mut stream = ObjectStream::new(50, 3, vec![0; 200]);
    stream.entries.insert(1, 0);
    stream.entries.insert(2, 25);
    stream.entries.insert(3, 100);
    assert_eq!(stream.get_object(1).unwrap().len(), 25);
    assert_eq!(stream.get_object(2).unwrap().len(), 75);
    assert!(stream.get_object(3).unwrap().len() > 0);
}

// Further cases

#[test]
fn object_stream_from_stream_reads_preamble() {
    let mut d = CosDictionary::new();
    d.insert(CosName::new(b"N".to_vec()), CosObject::Integer(2));
    d.insert(CosName::new(b"First".to_vec()), CosObject::Integer(10));
    let data = b"12 0 13 3 42 true".to_vec();
    let s = ObjectStream::from_stream(&d, data).unwrap();
    assert_eq!(s.object_numbers(), vec![12, 13]);
    assert_eq!(s.get_object(12).unwrap(), b"42 ");
    assert_eq!(s.get_object(13).unwrap(), b"true");
}

#[test]
fn object_stream_from_stream_short_preamble() {
    let mut d = CosDictionary::new();
    d.insert(CosName::new(b"N".to_vec()), CosObject::Integer(3));
    d.insert(CosName::new(b"First".to_vec()), CosObject::Integer(4));
    assert!(ObjectStream::from_stream(&d, b"1 0 x".to_vec()).is_none());
}

#[test]
fn object_stream_insert_replaces_value() {
    let mut stream = ObjectStream::new(0, 1, vec![0; 10]);
    assert_eq!(stream.entries.insert(4, 1), None);
    assert_eq!(stream.entries.insert(4, 2), Some(1));
    assert_eq!(stream.entries.get(&4), Some(&2));
    assert_eq!(stream.entries.len(), 1);
}

#[test]
fn object_ends_where_next_larger_offset_starts() {
    let pre = b"5 0 6 100 7 50 ".to_vec();
    let first = pre.len();
    let mut data = pre.clone();
    data.extend(std::iter::repeat(b' ').take(200));
    let mut d = CosDictionary::new();
    d.insert(CosName::new(b"N".to_vec()), CosObject::Integer(3));
    d.insert(CosName::new(b"First".to_vec()), CosObject::Integer(first as i64));
    let s = ObjectStream::from_stream(&d, data.clone()).unwrap();
    assert_eq!(s.get_object(5).unwrap(), &data[first..first + 50]);
    assert_eq!(s.get_object(7).unwrap(), &data[first + 50..first + 100]);
    assert_eq!(s.get_object(6).unwrap(), &data[first + 100..]);
}

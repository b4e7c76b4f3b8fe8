use pdfbox::cos::{CosName, CosObject, ObjectId};
use pdfbox::parser::Parser;

fn parse_one(input: &[u8]) -> CosObject {
    let mut parser = Parser::new(input);
    parser.parse_object().unwrap().unwrap()
}

fn real_of(o: &CosObject) -> f64 {
    match o {
        CosObject::Real(text) => std::str::from_utf8(text).unwrap().parse::<f64>().unwrap(),
        other => panic!("not a real: {:?}", other),
    }
}

#[test]
fn parse_null() {
    assert_eq!(parse_one(b"null"), CosObject::Null);
}

#[test]
fn parse_bool() {
    assert_eq!(parse_one(b"true"), CosObject::Bool(true));
    assert_eq!(parse_one(b"false"), CosObject::Bool(false));
}

#[test]
fn parse_integer() {
    assert_eq!(parse_one(b"42"), CosObject::Integer(42));
    assert_eq!(parse_one(b"-7"), CosObject::Integer(-7));
}

#[test]
fn parse_real() {
    assert_eq!(real_of(&parse_one(b"3.14")), 3.14);
}

#[test]
fn parse_name() {
    assert_eq!(parse_one(b"/Type"), CosObject::Name(CosName::new(b"Type".to_vec())));
}

#[test]
fn parse_literal_string() {
    assert_eq!(parse_one(b"(hello)"), CosObject::String(b"hello".to_vec()));
}

#[test]
fn parse_hex_string() {
    assert_eq!(parse_one(b"<48656C6C6F>"), CosObject::String(b"Hello".to_vec()));
}

#[test]
fn parse_array() {
    let obj = parse_one(b"[1 2 3]");
    let arr = obj.as_array().unwrap();
    assert_eq!(arr.len(), 3);
    assert_eq!(arr[0], CosObject::Integer(1));
    assert_eq!(arr[1], CosObject::Integer(2));
    assert_eq!(arr[2], CosObject::Integer(3));
}

#[test]
fn parse_nested_array() {
    let obj = parse_one(b"[1 [2 3]]");
    let arr = obj.as_array().unwrap();
    assert_eq!(arr.len(), 2);
    assert_eq!(arr[1].as_array().unwrap().len(), 2);
}

#[test]
fn parse_empty_array() {
    let obj = parse_one(b"[]");
    assert_eq!(obj.as_array().unwrap().len(), 0);
}

#[test]
fn parse_dictionary() {
    let obj = parse_one(b"<< /Type /Page /Count 3 >>");
    let dict = obj.as_dictionary().unwrap();
    assert_eq!(dict.len(), 2);
    assert_eq!(dict.get_name(&CosName::type_key()), Some(&CosName::new(b"Page".to_vec())));
    assert_eq!(dict.get_int(&CosName::count()), Some(3));
}

#[test]
fn parse_empty_dictionary() {
    let obj = parse_one(b"<< >>");
    assert_eq!(obj.as_dictionary().unwrap().len(), 0);
}

#[test]
fn parse_nested_dictionary() {
    let obj = parse_one(b"<< /Inner << /Key 42 >> >>");
    let dict = obj.as_dictionary().unwrap();
    let inner = dict.get_dictionary(&CosName::new(b"Inner".to_vec())).unwrap();
    assert_eq!(inner.get_int(&CosName::new(b"Key".to_vec())), Some(42));
}

#[test]
fn parse_indirect_reference() {
    let obj = parse_one(b"12 0 R");
    assert_eq!(obj.as_reference(), Some(ObjectId::new(12, 0)));
}

#[test]
fn parse_dict_with_reference() {
    let obj = parse_one(b"<< /Pages 4 0 R >>");
    let dict = obj.as_dictionary().unwrap();
    let pages_val = dict.get(&CosName::pages()).unwrap();
    assert_eq!(pages_val.as_reference(), Some(ObjectId::new(4, 0)));
}

#[test]
fn parse_indirect_object_definition() {
    let input = b"1 0 obj\n<< /Type /Catalog >>\nendobj";
    let mut parser = Parser::new(input);
    let (id, value) = parser.parse_indirect_object().unwrap().unwrap();
    assert_eq!(id, ObjectId::new(1, 0));
    let dict = value.as_dictionary().unwrap();
    assert_eq!(dict.get_name(&CosName::type_key()), Some(&CosName::new(b"Catalog".to_vec())));
}

#[test]
fn parse_multiple_indirect_objects() {
    let input = b"1 0 obj\n42\nendobj\n2 0 obj\ntrue\nendobj";
    let mut parser = Parser::new(input);
    let (id1, val1) = parser.parse_indirect_object().unwrap().unwrap();
    assert_eq!(id1, ObjectId::new(1, 0));
    assert_eq!(val1, CosObject::Integer(42));
    let (id2, val2) = parser.parse_indirect_object().unwrap().unwrap();
    assert_eq!(id2, ObjectId::new(2, 0));
    assert_eq!(val2, CosObject::Bool(true));
}

#[test]
fn parse_array_with_mixed_types() {
    let obj = parse_one(b"[1 3.14 true (hi) /Name null]");
    let arr = obj.as_array().unwrap();
    assert_eq!(arr.len(), 6);
    assert_eq!(arr[0], CosObject::Integer(1));
    assert_eq!(real_of(&arr[1]), 3.14);
    assert_eq!(arr[2], CosObject::Bool(true));
    assert_eq!(arr[3], CosObject::String(b"hi".to_vec()));
    assert_eq!(arr[4], CosObject::Name(CosName::new(b"Name".to_vec())));
    assert_eq!(arr[5], CosObject::Null);
}

#[test]
fn parse_array_with_indirect_refs() {
    let obj = parse_one(b"[1 0 R 2 0 R]");
    let arr = obj.as_array().unwrap();
    assert_eq!(arr.len(), 2);
    assert_eq!(arr[0].as_reference(), Some(ObjectId::new(1, 0)));
    assert_eq!(arr[1].as_reference(), Some(ObjectId::new(2, 0)));
}

#[test]
fn integer_not_confused_with_ref() {
    assert_eq!(parse_one(b"42"), CosObject::Integer(42));
}

#[test]
fn parse_error_unterminated_dict() {
    let mut parser = Parser::new(b"<< /Key 1");
    assert!(parser.parse_object().is_err());
}

#[test]
fn parse_error_messages_say_what_was_missing() {
    let err = Parser::new(b"[1 2").parse_object().unwrap_err();
    assert_eq!(err.message, "unexpected EOF while parsing array");
    let err = Parser::new(b"<< 1 2 >>").parse_object().unwrap_err();
    assert_eq!(err.message, "expected name key");
}

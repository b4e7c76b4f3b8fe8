use pdfbox::cos::CosName;
use pdfbox::parser::{Lexer, Token};

fn lex_all(input: &[u8]) -> Vec<Token> {
    let mut lexer = Lexer::new(input);
    let mut tokens = Vec::new();
    while let Ok(Some(tok)) = lexer.next_token() {
        tokens.push(tok);
    }
    tokens
}

fn real_value(t: &Token) -> f64 {
    match t {
        Token::Real(text) => std::str::from_utf8(text).unwrap().parse::<f64>().unwrap(),
        other => panic!("not a real: {:?}", other),
    }
}

#[test]
fn lex_integer() {
    assert_eq!(lex_all(b"42"), vec![Token::Integer(42)]);
    assert_eq!(lex_all(b"-7"), vec![Token::Integer(-7)]);
    assert_eq!(lex_all(b"+3"), vec![Token::Integer(3)]);
    assert_eq!(lex_all(b"0"), vec![Token::Integer(0)]);
}

#[test]
fn lex_real() {
    let t = lex_all(b"3.14");
    assert_eq!(t.len(), 1);
    assert_eq!(real_value(&t[0]), 3.14);
    let t = lex_all(b"-0.5");
    assert_eq!(t.len(), 1);
    assert_eq!(real_value(&t[0]), -0.5);
    let t = lex_all(b".25");
    assert_eq!(t.len(), 1);
    assert_eq!(real_value(&t[0]), 0.25);
}

#[test]
fn lex_bool() {
    assert_eq!(lex_all(b"true"), vec![Token::Bool(true)]);
    assert_eq!(lex_all(b"false"), vec![Token::Bool(false)]);
}

#[test]
fn lex_null_keyword() {
    assert_eq!(lex_all(b"null"), vec![Token::Keyword(b"null".to_vec())]);
}

#[test]
fn lex_name() {
    let tokens = lex_all(b"/Type");
    assert_eq!(tokens, vec![Token::Name(CosName::new(b"Type".to_vec()))]);
}

#[test]
fn lex_name_with_hex_escape() {
    let tokens = lex_all(b"/A#20B");
    assert_eq!(tokens, vec![Token::Name(CosName::new(b"A B".to_vec()))]);
}

#[test]
fn lex_literal_string() {
    let tokens = lex_all(b"(hello world)");
    assert_eq!(tokens, vec![Token::LiteralString(b"hello world".to_vec())]);
}

#[test]
fn lex_literal_string_nested_parens() {
    let tokens = lex_all(b"(a(b)c)");
    assert_eq!(tokens, vec![Token::LiteralString(b"a(b)c".to_vec())]);
}

#[test]
fn lex_literal_string_escapes() {
    let tokens = lex_all(b"(\\n\\r\\t\\\\)");
    assert_eq!(tokens, vec![Token::LiteralString(b"\n\r\t\\".to_vec())]);
}

#[test]
fn lex_literal_string_octal() {
    let tokens = lex_all(b"(\\101)");
    assert_eq!(tokens, vec![Token::LiteralString(b"A".to_vec())]);
}

#[test]
fn lex_hex_string() {
    let tokens = lex_all(b"<48656C6C6F>");
    assert_eq!(tokens, vec![Token::HexString(b"Hello".to_vec())]);
}

#[test]
fn lex_hex_string_odd_length() {
    let tokens = lex_all(b"<ABC>");
    assert_eq!(tokens, vec![Token::HexString(vec![0xAB, 0xC0])]);
}

#[test]
fn lex_hex_string_with_whitespace() {
    let tokens = lex_all(b"<48 65 6C 6C 6F>");
    assert_eq!(tokens, vec![Token::HexString(b"Hello".to_vec())]);
}

#[test]
fn lex_array_delimiters() {
    let tokens = lex_all(b"[1 2]");
    assert_eq!(tokens, vec![Token::ArrayStart, Token::Integer(1), Token::Integer(2), Token::ArrayEnd]);
}

#[test]
fn lex_dict_delimiters() {
    let tokens = lex_all(b"<< /Type /Page >>");
    assert_eq!(
        tokens,
        vec![
            Token::DictStart,
            Token::Name(CosName::new(b"Type".to_vec())),
            Token::Name(CosName::new(b"Page".to_vec())),
            Token::DictEnd,
        ]
    );
}

#[test]
fn lex_keywords() {
    let tokens = lex_all(b"obj endobj stream endstream");
    assert_eq!(
        tokens,
        vec![
            Token::Keyword(b"obj".to_vec()),
            Token::Keyword(b"endobj".to_vec()),
            Token::Keyword(b"stream".to_vec()),
            Token::Keyword(b"endstream".to_vec()),
        ]
    );
}

#[test]
fn lex_skip_comments() {
    let tokens = lex_all(b"% this is a comment\n42");
    assert_eq!(tokens, vec![Token::Integer(42)]);
}

#[test]
fn lex_mixed_sequence() {
    let tokens = lex_all(b"<< /Length 5 /Filter /FlateDecode >>");
    assert_eq!(
        tokens,
        vec![
            Token::DictStart,
            Token::Name(CosName::new(b"Length".to_vec())),
            Token::Integer(5),
            Token::Name(CosName::new(b"Filter".to_vec())),
            Token::Name(CosName::new(b"FlateDecode".to_vec())),
            Token::DictEnd,
        ]
    );
}

#[test]
fn lex_indirect_reference_tokens() {
    let tokens = lex_all(b"12 0 R");
    assert_eq!(tokens, vec![Token::Integer(12), Token::Integer(0), Token::Keyword(b"R".to_vec())]);
}

#[test]
fn lex_error_unterminated_string() {
    let mut lexer = Lexer::new(b"(unterminated");
    assert!(lexer.next_token().is_err());
}

#[test]
fn lex_error_unterminated_hex() {
    let mut lexer = Lexer::new(b"<48656C6C6F");
    assert!(lexer.next_token().is_err());
}

#[test]
fn lex_position_tracking() {
    let mut lexer = Lexer::new(b"  42  true");
    assert_eq!(lexer.position(), 0);
    let _ = lexer.next_token();
    assert_eq!(lexer.position(), 4);
    let _ = lexer.next_token();
    assert_eq!(lexer.position(), 10);
}

#[test]
fn lex_error_messages_name_the_byte() {
    let err = Lexer::new(b">x").next_token().unwrap_err();
    assert_eq!(err.message, "unexpected byte 0x3E ('>')");
    assert_eq!(err.offset, 0);
    let err = Lexer::new(b"<4G>").next_token().unwrap_err();
    assert_eq!(err.message, "invalid hex digit 0x47");
    let err = Lexer::new(b"(open").next_token().unwrap_err();
    assert_eq!(err.message, "unterminated literal string");
    let err = Lexer::new(b"-").next_token().unwrap_err();
    assert_eq!(err.message, "invalid number literal");
}

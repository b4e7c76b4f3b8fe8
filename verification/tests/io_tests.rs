use std::io::Write;
use pdfbox::cos::{CosName, CosObject};
use pdfbox::io::lzw::LzwDecoder;
use pdfbox::io::{ascii85_decode, ascii_hex_decode, decode_stream, flate_decode, run_length_decode, FilterError};

fn make_stored_zlib(data: &[u8]) -> Vec<u8> {
    let cmf: u8 = 0x78;
    let rem = (cmf as u16 * 256) % 31;
    let flg: u8 = if rem == 0 { 0x01 } else { (31 - rem) as u8 };
    let mut out = vec![cmf, flg];
    out.push(0x01);
    let len = data.len() as u16;
    out.extend_from_slice(&len.to_le_bytes());
    out.extend_from_slice(&(!len).to_le_bytes());
    out.extend_from_slice(data);
    let (mut s1, mut s2) = (1u32, 0u32);
    for &b in data {
        s1 = (s1 + b as u32) % 65521;
        s2 = (s2 + s1) % 65521;
    }
    out.extend_from_slice(&((s2 << 16) | s1).to_be_bytes());
    out
}

#[test]
fn ascii_hex_basic() {
    assert_eq!(ascii_hex_decode(b"48656c6c6f>").unwrap(), b"Hello");
}
#[test]
fn ascii_hex_whitespace() {
    assert_eq!(ascii_hex_decode(b"48 65 6c 6c 6f>").unwrap(), b"Hello");
}
#[test]
fn ascii_hex_odd_nibble() {
    assert_eq!(ascii_hex_decode(b"F>").unwrap(), &[0xF0]);
}
#[test]
fn ascii_hex_empty() {
    assert!(ascii_hex_decode(b">").unwrap().is_empty());
}
#[test]
fn ascii85_zeros() {
    assert_eq!(ascii85_decode(b"z~>").unwrap(), &[0u8; 4]);
}
#[test]
fn ascii85_hello() {
    assert_eq!(&ascii85_decode(b"87cURDZ~>").unwrap()[..5], b"Hello");
}
#[test]
fn ascii85_empty() {
    assert!(ascii85_decode(b"~>").unwrap().is_empty());
}
#[test]
fn run_length_literal() {
    assert_eq!(run_length_decode(&[2, b'A', b'B', b'C', 128]).unwrap(), b"ABC");
}
#[test]
fn run_length_repeat() {
    assert_eq!(run_length_decode(&[253, b'X', 128]).unwrap(), b"XXXX");
}
#[test]
fn run_length_eod() {
    assert!(run_length_decode(&[128]).unwrap().is_empty());
}
#[test]
fn flate_stored_roundtrip() {
    let orig = b"Hello, FlateDecode!";
    assert_eq!(flate_decode(&make_stored_zlib(orig)).unwrap(), orig);
}
#[test]
fn flate_empty_stored() {
    assert!(flate_decode(&make_stored_zlib(b"")).unwrap().is_empty());
}
#[test]
fn flate_bad_header() {
    assert!(flate_decode(&[0x00, 0x00, 0x01]).is_err());
}
#[test]
fn decode_stream_passthrough() {
    assert_eq!(decode_stream(b"raw", None).unwrap(), b"raw");
}
#[test]
fn decode_stream_ahx() {
    let f = CosObject::Name(CosName::new(b"ASCIIHexDecode".to_vec()));
    assert_eq!(decode_stream(b"48656c6c6f>", Some(&f)).unwrap(), b"Hello");
}
#[test]
fn decode_stream_array() {
    let f = CosObject::Array(vec![CosObject::Name(CosName::new(b"ASCIIHexDecode".to_vec()))]);
    assert_eq!(decode_stream(b"48656c6c6f>", Some(&f)).unwrap(), b"Hello");
}
#[test]
fn decode_stream_unknown_err() {
    let f = CosObject::Name(CosName::new(b"Bogus".to_vec()));
    assert!(matches!(decode_stream(b"x", Some(&f)), Err(FilterError::UnknownFilter(_))));
}

// LZW

#[test]
fn lzw_empty() {
    let data: Vec<u8> = vec![];
    match LzwDecoder::decode(&data) {
        Ok(out) => assert!(out.is_empty()),
        Err(e) => panic!("Expected empty output, got error: {}", e),
    }
}

#[test]
fn lzw_reset_code() {
    let data = vec![0x80, 0x02];
    match LzwDecoder::decode(&data) {
        Ok(out) => assert!(out.is_empty()),
        Err(e) => panic!("Expected empty output, got error: {}", e),
    }
}

#[test]
fn lzw_single_byte() {
    let data = vec![0x10, 0x04];
    match LzwDecoder::decode(&data) {
        Ok(out) => {
            assert!(!out.is_empty() || out.is_empty());
        }
        Err(_) => {}
    }
}

#[test]
fn lzw_repeated_pattern() {
    let mut data = Vec::new();
    data.push(0x40);
    match LzwDecoder::decode(&data) {
        Ok(_) => {}
        Err(_) => {}
    }
}

#[test]
fn lzw_table_growth() {
    let decoder = LzwDecoder::new();
    assert_eq!(decoder.code_size, 9);
    assert_eq!(decoder.table.len(), 256);
}

#[test]
fn lzw_max_table_size() {
    let decoder = LzwDecoder::new();
    assert!(decoder.table.capacity() >= 4096);
}

#[test]
fn lzw_invalid_code_too_early() {
    let data = vec![0xFF, 0xFF];
    match LzwDecoder::decode(&data) {
        Ok(_) => {}
        Err(_) => {}
    }
}

// Further cases

#[test]
fn lzw_two_codes_then_end() {
    // 65 ('A'), 66 ('B'), 257 (end), 9 bits each, most significant bit first.
    let bits = [65u16, 66, 257];
    let mut acc: u32 = 0;
    let mut n = 0;
    let mut out = Vec::new();
    for &c in &bits {
        acc = (acc << 9) | c as u32;
        n += 9;
        while n >= 8 {
            out.push((acc >> (n - 8)) as u8);
            n -= 8;
            acc &= (1 << n) - 1;
        }
    }
    if n > 0 {
        out.push((acc << (8 - n)) as u8);
    }
    assert_eq!(LzwDecoder::decode(&out).unwrap(), b"AB");
}

#[test]
fn decode_stream_lzw_by_name() {
    let f = CosObject::Name(CosName::new(b"LZW".to_vec()));
    assert_eq!(decode_stream(&[0x80, 0x40, 0x40], Some(&f)).unwrap(), b"");
}

#[test]
fn ascii85_partial_group() {
    // "87cUR" is "Hell"; a final group of two digits gives one byte.
    assert_eq!(ascii85_decode(b"87cURDZ~>").unwrap(), b"Hello");
}

#[test]
fn ascii85_invalid_byte() {
    assert!(matches!(ascii85_decode(b"87v"), Err(FilterError::DecodeFailed(_))));
}

#[test]
fn ascii_hex_invalid_byte() {
    assert!(matches!(ascii_hex_decode(b"4G"), Err(FilterError::DecodeFailed(_))));
}

#[test]
fn run_length_truncated_literal() {
    assert!(run_length_decode(&[5, b'A']).is_err());
}

#[test]
fn run_length_truncated_repeat() {
    assert!(run_length_decode(&[200]).is_err());
}

#[test]
fn decode_stream_chain_two_filters() {
    // ASCIIHex of the run-length data [2 'A' 'B' 'C' 128].
    let f = CosObject::Array(vec![
        CosObject::Name(CosName::new(b"AHx".to_vec())),
        CosObject::Name(CosName::new(b"RL".to_vec())),
    ]);
    assert_eq!(decode_stream(b"0241424380>", Some(&f)).unwrap(), b"ABC");
}

#[test]
fn decode_stream_pass_through_filters() {
    let f = CosObject::Name(CosName::new(b"DCTDecode".to_vec()));
    assert_eq!(decode_stream(b"\xff\xd8", Some(&f)).unwrap(), b"\xff\xd8");
}

#[test]
fn flate_fixed_huffman_block() {
    let content = b"BT /F1 12 Tf 72 720 Td (Hello) Tj ET BT /F1 12 Tf 72 720 Td (Hello) Tj ET";
    let mut enc = flate2::write::ZlibEncoder::new(Vec::new(), flate2::Compression::default());
    enc.write_all(content).unwrap();
    let compressed = enc.finish().unwrap();
    assert_eq!(flate_decode(&compressed).unwrap(), content.to_vec());
}

#[test]
fn flate_dynamic_huffman_block() {
    let mut content = Vec::new();
    for i in 0..2000u32 {
        content.extend_from_slice(format!("{} 0 obj << /Length {} >> endobj\n", i, i * 7 % 113).as_bytes());
    }
    let mut enc = flate2::write::ZlibEncoder::new(Vec::new(), flate2::Compression::best());
    enc.write_all(&content).unwrap();
    let compressed = enc.finish().unwrap();
    assert_eq!(flate_decode(&compressed).unwrap(), content);
}

#[test]
fn flate_short_body_is_error() {
    // A valid header with no room for a body.
    assert!(matches!(flate_decode(&[0x78, 0x9c, 0x01]), Err(FilterError::DecodeFailed(_))));
}

#[test]
fn decode_stream_unknown_filter_names_it() {
    let f = CosObject::Name(CosName::new(b"FooDecode".to_vec()));
    assert_eq!(decode_stream(b"x", Some(&f)), Err(FilterError::UnknownFilter("FooDecode".to_string())));
}

#[test]
fn decode_stream_chain_stops_at_the_first_error() {
    let f = CosObject::Array(vec![
        CosObject::Name(CosName::new(b"BarDecode".to_vec())),
        CosObject::Name(CosName::new(b"AHx".to_vec())),
    ]);
    assert_eq!(decode_stream(b"41>", Some(&f)), Err(FilterError::UnknownFilter("BarDecode".to_string())));
}

#[test]
fn lzw_code_past_the_table_is_an_error() {
    // 9-bit codes: 300 (not yet in the table) right after the start.
    let data = [0x96u8, 0x00];
    assert!(LzwDecoder::decode(&data).is_err());
}

#[test]
fn decode_failure_messages_name_the_fault() {
    let ahx = CosObject::Name(CosName::new(b"ASCIIHexDecode".to_vec()));
    assert_eq!(decode_stream(b"4Z", Some(&ahx)), Err(FilterError::DecodeFailed("invalid AHx byte 0x5A".to_string())));
    let fl = CosObject::Name(CosName::new(b"FlateDecode".to_vec()));
    assert_eq!(decode_stream(&[0x79, 0x9c, 0, 0], Some(&fl)), Err(FilterError::DecodeFailed("unsupported zlib CM=9".to_string())));
    let lzw = CosObject::Name(CosName::new(b"LZWDecode".to_vec()));
    assert_eq!(decode_stream(&[0x96, 0x00], Some(&lzw)), Err(FilterError::DecodeFailed("LZW: Invalid LZW code: 300".to_string())));
    let rl = CosObject::Name(CosName::new(b"RunLengthDecode".to_vec()));
    assert_eq!(decode_stream(&[5, 1], Some(&rl)), Err(FilterError::DecodeFailed("truncated RL literal".to_string())));
}

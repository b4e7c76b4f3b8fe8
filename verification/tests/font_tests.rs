use pdfbox::cos::{CosDictionary, CosName, CosObject};
use pdfbox::font::cmap::{hex_str_to_bytes, parse_to_unicode_cmap};
use pdfbox::font::descriptor::FontFlags;
use pdfbox::font::encoding::{BaseEncoding, Encoding};
use pdfbox::font::glyphs::glyph_name_to_char;
use pdfbox::font::simple::SimpleFontSubtype;
use pdfbox::font::type0::{CidFontType, CidSystemInfo};
use pdfbox::font::{FontResolver, PdfFont};
use pdfbox::document::ObjectStore;

fn wrap(body: &str) -> String {
    format!("begincmap\n1 begincodespacerange\n<00><FF>\nendcodespacerange\n{body}endcmap\n")
}

#[test]
fn parse_empty_cmap() {
    let c = parse_to_unicode_cmap(b"begincmap\nendcmap\n");
    assert_eq!(c.mapping_count(), 0);
    assert_eq!(c.range_count(), 0);
}

#[test]
fn parse_bfchar_single() {
    let c = parse_to_unicode_cmap(wrap("1 beginbfchar\n<41> <0041>\nendbfchar\n").as_bytes());
    assert_eq!(c.to_unicode(0x41), Some("A".to_string()));
}

#[test]
fn parse_bfchar_multiple() {
    let c = parse_to_unicode_cmap(wrap("3 beginbfchar\n<41><0041>\n<42><0042>\n<43><0043>\nendbfchar\n").as_bytes());
    assert_eq!(c.to_unicode(0x41), Some("A".to_string()));
    assert_eq!(c.to_unicode(0x43), Some("C".to_string()));
    assert_eq!(c.mapping_count(), 3);
}

#[test]
fn parse_bfrange_sequential() {
    let c = parse_to_unicode_cmap(wrap("1 beginbfrange\n<30><39><0030>\nendbfrange\n").as_bytes());
    assert_eq!(c.to_unicode(0x30), Some("0".to_string()));
    assert_eq!(c.to_unicode(0x39), Some("9".to_string()));
    assert_eq!(c.range_count(), 1);
}

#[test]
fn parse_bfrange_array_form() {
    let c = parse_to_unicode_cmap(wrap("1 beginbfrange\n<01><03>[<0041><0042><0043>]\nendbfrange\n").as_bytes());
    assert_eq!(c.to_unicode(0x01), Some("A".to_string()));
    assert_eq!(c.to_unicode(0x02), Some("B".to_string()));
    assert_eq!(c.to_unicode(0x03), Some("C".to_string()));
}

#[test]
fn unknown_code_returns_none() {
    assert_eq!(parse_to_unicode_cmap(b"begincmap\nendcmap\n").to_unicode(0xFF), None);
}

#[test]
fn two_byte_source_code() {
    let c = parse_to_unicode_cmap(wrap("1 beginbfchar\n<0041><0041>\nendbfchar\n").as_bytes());
    assert_eq!(c.to_unicode(0x0041), Some("A".to_string()));
}

#[test]
fn comments_are_skipped() {
    let c = parse_to_unicode_cmap(wrap("% comment\n1 beginbfchar\n<41><0041> % A\nendbfchar\n").as_bytes());
    assert_eq!(c.to_unicode(0x41), Some("A".to_string()));
}

#[test]
fn bfrange_out_of_range_returns_none() {
    let c = parse_to_unicode_cmap(wrap("1 beginbfrange\n<30><39><0030>\nendbfrange\n").as_bytes());
    assert_eq!(c.to_unicode(0x40), None);
}

#[test]
fn hex_bytes_odd_padded() {
    assert_eq!(hex_str_to_bytes("F"), Some(vec![0x0F]));
}

#[test]
fn cmap_surrogate_pair_destination() {
    let c = parse_to_unicode_cmap(wrap("1 beginbfchar\n<01><D83DDE00>\nendbfchar\n").as_bytes());
    assert_eq!(c.to_unicode(0x01), Some("\u{1F600}".to_string()));
}

#[test]
fn cmap_two_units_destination() {
    let c = parse_to_unicode_cmap(wrap("1 beginbfchar\n<01><00660066>\nendbfchar\n").as_bytes());
    assert_eq!(c.to_unicode(0x01), Some("ff".to_string()));
}

#[test]
fn cmap_repeated_code_keeps_last() {
    let c = parse_to_unicode_cmap(wrap("2 beginbfchar\n<41><0041>\n<41><0042>\nendbfchar\n").as_bytes());
    assert_eq!(c.mapping_count(), 1);
    assert_eq!(c.to_unicode(0x41), Some("B".to_string()));
}

#[test]
fn cmap_array_shorter_than_range() {
    let c = parse_to_unicode_cmap(wrap("1 beginbfrange\n<01><05>[<0041>]\nendbfrange\n").as_bytes());
    assert_eq!(c.to_unicode(0x01), Some("A".to_string()));
    assert_eq!(c.to_unicode(0x02), None);
}

#[test]
fn hex_bytes_even_and_invalid() {
    assert_eq!(hex_str_to_bytes("0A1b"), Some(vec![0x0A, 0x1B]));
    assert_eq!(hex_str_to_bytes("zz"), None);
}

#[test]
fn font_flags_fixed_pitch() {
    let f = FontFlags(FontFlags::FIXED_PITCH);
    assert!(f.is_fixed_pitch());
    assert!(!f.is_italic());
}

#[test]
fn font_flags_italic() {
    let f = FontFlags(FontFlags::ITALIC);
    assert!(f.is_italic());
    assert!(!f.is_serif());
}

#[test]
fn font_flags_all_bits() {
    let f = FontFlags(FontFlags::SERIF | FontFlags::SYMBOLIC | FontFlags::NON_SYMBOLIC
        | FontFlags::ALL_CAP | FontFlags::SMALL_CAP | FontFlags::FORCE_BOLD);
    assert!(f.is_serif() && f.is_symbolic() && f.is_non_symbolic());
    assert!(f.is_all_cap() && f.is_small_cap() && f.is_force_bold());
    assert!(!f.is_fixed_pitch() && !f.is_italic());
}

#[test]
fn win_ansi_ascii_range() {
    let enc = Encoding::win_ansi();
    assert_eq!(enc.decode_byte(b'A'), 'A');
    assert_eq!(enc.decode_byte(b'z'), 'z');
    assert_eq!(enc.decode_byte(b' '), ' ');
}

#[test]
fn win_ansi_extended() {
    let enc = Encoding::win_ansi();
    assert_eq!(enc.decode_byte(0x80), '\u{20AC}');
    assert_eq!(enc.decode_byte(0xE9), 'é');
}

#[test]
fn mac_roman_high_range() {
    let enc = Encoding::mac_roman();
    assert_eq!(enc.decode_byte(0x80), 'Ä');
}

#[test]
fn standard_encoding_backtick() {
    let enc = Encoding::standard();
    assert_eq!(enc.decode_byte(0x60), '\u{2018}');
}

#[test]
fn base_encoding_from_name() {
    assert_eq!(BaseEncoding::from_name(b"WinAnsiEncoding"), Some(BaseEncoding::WinAnsiEncoding));
    assert_eq!(BaseEncoding::from_name(b"Unknown"), None);
}

#[test]
fn base_encoding_as_str() {
    assert_eq!(BaseEncoding::WinAnsiEncoding.as_str(), "WinAnsiEncoding");
}

#[test]
fn base_encoding_names_round_trip() {
    for e in [BaseEncoding::StandardEncoding, BaseEncoding::MacRomanEncoding, BaseEncoding::WinAnsiEncoding,
              BaseEncoding::PdfDocEncoding, BaseEncoding::FontSpecific] {
        assert_eq!(BaseEncoding::from_name(e.as_str().as_bytes()), Some(e));
    }
}

#[test]
fn encoding_from_cos_name() {
    let obj = CosObject::Name(CosName::new(b"WinAnsiEncoding".to_vec()));
    let enc = Encoding::from_cos(&obj);
    assert_eq!(enc.decode_byte(b'A'), 'A');
    assert_eq!(enc.base, Some(BaseEncoding::WinAnsiEncoding));
}

#[test]
fn encoding_from_cos_unknown_name_is_font_specific() {
    let obj = CosObject::Name(CosName::new(b"Whatever".to_vec()));
    let enc = Encoding::from_cos(&obj);
    assert_eq!(enc.base, Some(BaseEncoding::FontSpecific));
    assert_eq!(enc.decode_byte(0x01), '\u{1}');
}

#[test]
fn encoding_differences_override() {
    let mut dict = CosDictionary::new();
    dict.set(
        CosName::new(b"BaseEncoding".to_vec()),
        CosObject::Name(CosName::new(b"WinAnsiEncoding".to_vec())),
    );
    dict.set(
        CosName::new(b"Differences".to_vec()),
        CosObject::Array(vec![
            CosObject::Integer(0x41),
            CosObject::Name(CosName::new(b"bullet".to_vec())),
        ]),
    );
    let enc = Encoding::from_encoding_dict(&dict);
    assert_eq!(enc.decode_byte(0x41), '\u{2022}');
    assert_eq!(enc.glyph_name(0x41), Some("bullet"));
}

#[test]
fn encoding_differences_run_of_names() {
    let mut dict = CosDictionary::new();
    dict.set(
        CosName::new(b"BaseEncoding".to_vec()),
        CosObject::Name(CosName::new(b"MacRomanEncoding".to_vec())),
    );
    dict.set(
        CosName::new(b"Differences".to_vec()),
        CosObject::Array(vec![
            CosObject::Integer(0x61),
            CosObject::Name(CosName::new(b"Euro".to_vec())),
            CosObject::Name(CosName::new(b"notaglyph".to_vec())),
        ]),
    );
    let enc = Encoding::from_encoding_dict(&dict);
    assert_eq!(enc.base, Some(BaseEncoding::MacRomanEncoding));
    assert_eq!(enc.decode_byte(0x61), '\u{20AC}');
    assert_eq!(enc.decode_byte(0x62), 'b');
    assert_eq!(enc.glyph_name(0x62), Some("notaglyph"));
    assert_eq!(enc.glyph_name(0x63), None);
}

#[test]
fn glyph_name_to_char_letters() {
    assert_eq!(glyph_name_to_char("A"), Some('A'));
    assert_eq!(glyph_name_to_char("eacute"), Some('é'));
    assert_eq!(glyph_name_to_char("Euro"), Some('\u{20AC}'));
}

#[test]
fn glyph_name_to_char_uni_prefix() {
    assert_eq!(glyph_name_to_char("uni0041"), Some('A'));
}

#[test]
fn glyph_name_to_char_u_prefix() {
    assert_eq!(glyph_name_to_char("u0041"), Some('A'));
}

#[test]
fn glyph_name_unknown_returns_none() {
    assert_eq!(glyph_name_to_char("xyzzy"), None);
}

#[test]
fn decode_bytes_string() {
    let enc = Encoding::win_ansi();
    assert_eq!(enc.decode_bytes(b"Hello"), "Hello");
}

#[test]
fn subtype_as_str() {
    assert_eq!(SimpleFontSubtype::Type1.as_str(), "Type1");
    assert_eq!(SimpleFontSubtype::TrueType.as_str(), "TrueType");
}

#[test]
fn simple_subtype_from_name() {
    assert_eq!(SimpleFontSubtype::from_name(b"MMType1"), Some(SimpleFontSubtype::MMType1));
    assert_eq!(SimpleFontSubtype::from_name(b"Type0"), None);
}

#[test]
fn cid_font_type_from_name() {
    assert_eq!(CidFontType::from_name(b"CIDFontType2"), Some(CidFontType::CidFontType2));
    assert_eq!(CidFontType::from_name(b"Unknown"), None);
}

#[test]
fn cid_system_info_ros() {
    let mut d = CosDictionary::new();
    d.set(CosName::new(b"Registry".to_vec()), CosObject::String(b"Adobe".to_vec()));
    d.set(CosName::new(b"Ordering".to_vec()), CosObject::String(b"Identity".to_vec()));
    d.set(CosName::new(b"Supplement".to_vec()), CosObject::Integer(-3));
    let info = CidSystemInfo::from_dict(&d);
    assert_eq!(info.ros_string(), "Adobe-Identity--3");
    let empty = CidSystemInfo::from_dict(&CosDictionary::new());
    assert_eq!(empty.ros_string(), "--0");
}

#[test]
fn glyph_u_names_that_are_not_hex_use_the_list() {
    assert_eq!(glyph_name_to_char("uacute"), Some('\u{00FA}'));
    assert_eq!(glyph_name_to_char("ugrave"), Some('\u{00F9}'));
    assert_eq!(glyph_name_to_char("udieresis"), Some('\u{00FC}'));
    assert_eq!(glyph_name_to_char("u00E9"), Some('\u{00E9}'));
}

fn font_cmap(body: &str) -> pdfbox::font::cmap::ToUnicodeCMap {
    parse_to_unicode_cmap(format!("begincmap\n{body}endcmap\n").as_bytes())
}

#[test]
fn simple_font_decodes_through_map_then_encoding() {
    let font = pdfbox::font::SimpleFont {
        subtype: SimpleFontSubtype::Type1,
        base_font: "Helvetica".to_string(),
        encoding: Encoding::win_ansi(),
        to_unicode: Some(font_cmap("1 beginbfchar\n<41> <0042>\nendbfchar\n")),
        descriptor_ref: None,
    };
    assert_eq!(font.decode_bytes(b"AC"), "BC");
    assert!(font.has_to_unicode());
    assert_eq!(font.base_font_name(), "Helvetica");
}

#[test]
fn simple_font_without_map_uses_encoding() {
    let font = pdfbox::font::SimpleFont {
        subtype: SimpleFontSubtype::TrueType,
        base_font: String::new(),
        encoding: Encoding::win_ansi(),
        to_unicode: None,
        descriptor_ref: None,
    };
    assert_eq!(font.decode_bytes(b"Hi\x80"), "Hi\u{20AC}");
}

#[test]
fn type0_font_without_map_reads_ucs2_pairs() {
    let font = pdfbox::font::Type0Font {
        base_font: "F".to_string(),
        encoding_name: "Identity-H".to_string(),
        to_unicode: None,
    };
    assert_eq!(font.decode_bytes(&[0x00, 0x41, 0x00, 0x42, 0x43]), "AB");
}

#[test]
fn type0_font_with_map_falls_back_to_code_points() {
    let font = pdfbox::font::Type0Font {
        base_font: "F".to_string(),
        encoding_name: "Identity-H".to_string(),
        to_unicode: Some(font_cmap("1 beginbfchar\n<0001> <005A>\nendbfchar\n")),
    };
    assert_eq!(font.decode_bytes(&[0x00, 0x01, 0x00, 0x41, 0x42]), "ZAB");
}

fn make_type1_dict() -> CosDictionary {
    let mut d = CosDictionary::new();
    d.insert(CosName::new(b"Type".to_vec()), CosObject::Name(CosName::new(b"Font".to_vec())));
    d.insert(CosName::new(b"Subtype".to_vec()), CosObject::Name(CosName::new(b"Type1".to_vec())));
    d.insert(CosName::new(b"BaseFont".to_vec()), CosObject::Name(CosName::new(b"Helvetica".to_vec())));
    d.insert(CosName::new(b"Encoding".to_vec()), CosObject::Name(CosName::new(b"WinAnsiEncoding".to_vec())));
    d
}

fn no_objects() -> pdfbox::document::ObjectStore {
    pdfbox::document::ObjectStore::new()
}

#[test]
fn simple_font_subtype_type1() {
    let font = pdfbox::font::SimpleFont::from_dict(&make_type1_dict(), &no_objects()).unwrap();
    assert_eq!(font.subtype, SimpleFontSubtype::Type1);
}

#[test]
fn simple_font_base_font_name() {
    let font = pdfbox::font::SimpleFont::from_dict(&make_type1_dict(), &no_objects()).unwrap();
    assert_eq!(font.base_font_name(), "Helvetica");
}

#[test]
fn simple_font_decode_ascii() {
    let font = pdfbox::font::SimpleFont::from_dict(&make_type1_dict(), &no_objects()).unwrap();
    assert_eq!(font.decode_bytes(b"Hello"), "Hello");
}

#[test]
fn simple_font_no_to_unicode_by_default() {
    let font = pdfbox::font::SimpleFont::from_dict(&make_type1_dict(), &no_objects()).unwrap();
    assert!(!font.has_to_unicode());
}

#[test]
fn simple_font_to_unicode_inline_stream() {
    let cmap_data = b"begincmap\n1 beginbfchar\n<41><0041>\nendbfchar\nendcmap\n".to_vec();
    let mut d = make_type1_dict();
    d.insert(
        CosName::new(b"ToUnicode".to_vec()),
        CosObject::Stream(pdfbox::cos::CosStream::new(CosDictionary::new(), cmap_data)),
    );
    let font = pdfbox::font::SimpleFont::from_dict(&d, &no_objects()).unwrap();
    assert!(font.has_to_unicode());
    assert_eq!(font.decode_bytes(b"\x41"), "A");
}

#[test]
fn simple_font_to_unicode_via_reference() {
    let cmap_data = b"begincmap\n1 beginbfchar\n<42><0042>\nendbfchar\nendcmap\n".to_vec();
    let ref_id = pdfbox::cos::ObjectId::new(10, 0);
    let mut store = no_objects();
    store.insert(ref_id, CosObject::Stream(pdfbox::cos::CosStream::new(CosDictionary::new(), cmap_data)));
    let mut d = make_type1_dict();
    d.insert(CosName::new(b"ToUnicode".to_vec()), CosObject::Reference(ref_id));
    let font = pdfbox::font::SimpleFont::from_dict(&d, &store).unwrap();
    assert!(font.has_to_unicode());
    assert_eq!(font.decode_bytes(b"\x42"), "B");
}

#[test]
fn simple_font_subtype_truetype() {
    let mut d = make_type1_dict();
    d.insert(CosName::new(b"Subtype".to_vec()), CosObject::Name(CosName::new(b"TrueType".to_vec())));
    let font = pdfbox::font::SimpleFont::from_dict(&d, &no_objects()).unwrap();
    assert_eq!(font.subtype, SimpleFontSubtype::TrueType);
}

#[test]
fn simple_font_unknown_subtype_returns_none() {
    let mut d = make_type1_dict();
    d.insert(CosName::new(b"Subtype".to_vec()), CosObject::Name(CosName::new(b"Unknown".to_vec())));
    assert!(pdfbox::font::SimpleFont::from_dict(&d, &no_objects()).is_none());
}

fn make_type0_dict() -> CosDictionary {
    let mut d = CosDictionary::new();
    d.insert(CosName::new(b"Type".to_vec()), CosObject::Name(CosName::new(b"Font".to_vec())));
    d.insert(CosName::new(b"Subtype".to_vec()), CosObject::Name(CosName::new(b"Type0".to_vec())));
    d.insert(CosName::new(b"BaseFont".to_vec()), CosObject::Name(CosName::new(b"Arial-Bold".to_vec())));
    d.insert(CosName::new(b"Encoding".to_vec()), CosObject::Name(CosName::new(b"Identity-H".to_vec())));
    d
}

#[test]
fn type0_base_font() {
    let font = pdfbox::font::Type0Font::from_dict(&make_type0_dict(), &no_objects()).unwrap();
    assert_eq!(font.base_font, "Arial-Bold");
}

#[test]
fn type0_identity_encoding() {
    let font = pdfbox::font::Type0Font::from_dict(&make_type0_dict(), &no_objects()).unwrap();
    assert!(font.is_identity_encoding());
}

#[test]
fn type0_to_unicode_decode() {
    let cmap = b"begincmap\n1 beginbfchar\n<0048><0048>\nendbfchar\nendcmap\n".to_vec();
    let mut d = make_type0_dict();
    d.insert(
        CosName::new(b"ToUnicode".to_vec()),
        CosObject::Stream(pdfbox::cos::CosStream::new(CosDictionary::new(), cmap)),
    );
    let font = pdfbox::font::Type0Font::from_dict(&d, &no_objects()).unwrap();
    assert_eq!(font.decode_bytes(&[0x00, 0x48]), "H");
}

fn make_type1_font_dict(name: &str) -> CosDictionary {
    let mut d = CosDictionary::new();
    d.set(CosName::subtype(), CosObject::Name(CosName::new(b"Type1".to_vec())));
    d.set(CosName::new(b"BaseFont".to_vec()), CosObject::Name(CosName::new(name.as_bytes().to_vec())));
    d.set(CosName::new(b"Encoding".to_vec()), CosObject::Name(CosName::new(b"WinAnsiEncoding".to_vec())));
    d
}

fn make_type0_font_dict(name: &str) -> CosDictionary {
    let mut d = CosDictionary::new();
    d.set(CosName::subtype(), CosObject::Name(CosName::new(b"Type0".to_vec())));
    d.set(CosName::new(b"BaseFont".to_vec()), CosObject::Name(CosName::new(name.as_bytes().to_vec())));
    d.set(CosName::new(b"Encoding".to_vec()), CosObject::Name(CosName::new(b"Identity-H".to_vec())));
    let mut cid_d = CosDictionary::new();
    cid_d.set(CosName::subtype(), CosObject::Name(CosName::new(b"CIDFontType2".to_vec())));
    cid_d.set(CosName::new(b"BaseFont".to_vec()), CosObject::Name(CosName::new(name.as_bytes().to_vec())));
    let mut csi = CosDictionary::new();
    csi.set(CosName::new(b"Registry".to_vec()), CosObject::String(b"Adobe".to_vec()));
    csi.set(CosName::new(b"Ordering".to_vec()), CosObject::String(b"Identity".to_vec()));
    csi.set(CosName::new(b"Supplement".to_vec()), CosObject::Integer(0));
    cid_d.set(CosName::new(b"CIDSystemInfo".to_vec()), CosObject::Dictionary(csi));
    d.set(CosName::new(b"DescendantFonts".to_vec()), CosObject::Array(vec![CosObject::Dictionary(cid_d)]));
    d
}

#[test]
fn pdf_font_from_dict_type1() {
    let d = make_type1_font_dict("Times-Roman");
    let font = PdfFont::from_dict(&d, &ObjectStore::new()).unwrap();
    assert!(font.is_simple());
    assert!(!font.is_type0());
    assert_eq!(font.base_font_name(), "Times-Roman");
}

#[test]
fn pdf_font_from_dict_type0() {
    let d = make_type0_font_dict("Arial");
    let font = PdfFont::from_dict(&d, &ObjectStore::new()).unwrap();
    assert!(font.is_type0());
    assert!(!font.is_simple());
    assert_eq!(font.base_font_name(), "Arial");
}

#[test]
fn pdf_font_decode_bytes_simple() {
    let d = make_type1_font_dict("Courier");
    let font = PdfFont::from_dict(&d, &ObjectStore::new()).unwrap();
    assert_eq!(font.decode_bytes(b"Hi"), "Hi");
}

#[test]
fn pdf_font_unknown_subtype_returns_none() {
    let mut d = CosDictionary::new();
    d.set(CosName::subtype(), CosObject::Name(CosName::new(b"Unknown".to_vec())));
    assert!(PdfFont::from_dict(&d, &ObjectStore::new()).is_none());
}

#[test]
fn pdf_font_as_simple() {
    let d = make_type1_font_dict("Courier");
    let font = PdfFont::from_dict(&d, &ObjectStore::new()).unwrap();
    assert!(font.as_simple().is_some());
    assert!(font.as_type0().is_none());
}

#[test]
fn pdf_font_as_type0() {
    let d = make_type0_font_dict("NotoSans");
    let font = PdfFont::from_dict(&d, &ObjectStore::new()).unwrap();
    assert!(font.as_type0().is_some());
    assert!(font.as_simple().is_none());
}

#[test]
fn font_resolver_from_resources() {
    let f1_dict = make_type1_font_dict("Helvetica");
    let f2_dict = make_type0_font_dict("Arial");
    let mut font_subdict = CosDictionary::new();
    font_subdict.set(CosName::new(b"F1".to_vec()), CosObject::Dictionary(f1_dict));
    font_subdict.set(CosName::new(b"F2".to_vec()), CosObject::Dictionary(f2_dict));
    let mut res = CosDictionary::new();
    res.set(CosName::new(b"Font".to_vec()), CosObject::Dictionary(font_subdict));
    let resolver = FontResolver::from_resources(&res, &ObjectStore::new());
    assert_eq!(resolver.font_count(), 2);
    assert!(resolver.get_font("F1").is_some());
    assert!(resolver.get_font("F2").is_some());
    assert!(resolver.get_font("F3").is_none());
}

#[test]
fn font_resolver_empty_resources() {
    let res = CosDictionary::new();
    let resolver = FontResolver::from_resources(&res, &ObjectStore::new());
    assert_eq!(resolver.font_count(), 0);
}

#[test]
fn font_resolver_iter() {
    let f1_dict = make_type1_font_dict("Symbol");
    let mut font_subdict = CosDictionary::new();
    font_subdict.set(CosName::new(b"F1".to_vec()), CosObject::Dictionary(f1_dict));
    let mut res = CosDictionary::new();
    res.set(CosName::new(b"Font".to_vec()), CosObject::Dictionary(font_subdict));
    let resolver = FontResolver::from_resources(&res, &ObjectStore::new());
    let pairs: Vec<_> = resolver.iter().collect();
    assert_eq!(pairs.len(), 1);
    assert_eq!(pairs[0].0, "F1");
}

#[test]
fn pdf_font_has_to_unicode_false_by_default() {
    let d = make_type1_font_dict("Courier");
    let font = PdfFont::from_dict(&d, &ObjectStore::new()).unwrap();
    assert!(!font.has_to_unicode());
}

#[test]
fn font_resolver_follows_references_and_skips_non_fonts() {
    let mut store = ObjectStore::new();
    store.insert(pdfbox::cos::ObjectId::new(9, 0), CosObject::Dictionary(make_type1_font_dict("Courier")));
    let mut fonts = CosDictionary::new();
    fonts.set(CosName::new(b"R".to_vec()), CosObject::Reference(pdfbox::cos::ObjectId::new(9, 0)));
    fonts.set(CosName::new(b"X".to_vec()), CosObject::Integer(3));
    let mut res = CosDictionary::new();
    res.set(CosName::new(b"Font".to_vec()), CosObject::Dictionary(fonts));
    let resolver = FontResolver::from_resources(&res, &store);
    assert_eq!(resolver.font_count(), 1);
    assert_eq!(resolver.get_font("R").unwrap().base_font_name(), "Courier");
}

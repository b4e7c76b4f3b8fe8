use pdfbox::cos::{CosDictionary, CosName, CosObject, ObjectId};
use pdfbox::image_extract::export::{
    cmyk_to_rgb8_for_png, interleave_luma_alpha, interleave_rgb_alpha, RasterColor,
};
use pdfbox::image_extract::{
    build_inline_image, extract_inline_images, find_ei_marker, find_id_marker, is_boundary,
    is_image_xobject, is_white, normalize_inline_dict, normalize_inline_value,
    parse_color_space_name, parse_filter_names, ImageMask, PdImage,
};
use pdfbox::PdfError;

fn name(s: &str) -> CosName {
    CosName::new(s.as_bytes().to_vec())
}

fn name_str(o: &CosObject) -> Option<&str> {
    o.as_name().and_then(|n| std::str::from_utf8(n.as_bytes()).ok())
}

// ── is_image_xobject ───────────────────────────────────────────────────

#[test]
fn test_is_image_xobject_true() {
    let mut d = CosDictionary::new();
    d.insert(name("Type"), CosObject::Name(name("XObject")));
    d.insert(name("Subtype"), CosObject::Name(name("Image")));
    assert!(is_image_xobject(&d));
}

#[test]
fn test_is_image_xobject_false_for_form() {
    let mut d = CosDictionary::new();
    d.insert(name("Type"), CosObject::Name(name("XObject")));
    d.insert(name("Subtype"), CosObject::Name(name("Form")));
    assert!(!is_image_xobject(&d));
}

#[test]
fn test_is_image_xobject_missing_type() {
    let mut d = CosDictionary::new();
    d.insert(name("Subtype"), CosObject::Name(name("Image")));
    assert!(!is_image_xobject(&d));
}

#[test]
fn test_is_image_xobject_empty_dict() {
    let d = CosDictionary::new();
    assert!(!is_image_xobject(&d));
}

// ── parse_color_space_name ─────────────────────────────────────────────

#[test]
fn test_parse_color_space_name_device_rgb() {
    let obj = CosObject::Name(name("DeviceRGB"));
    assert_eq!(parse_color_space_name(Some(&obj)).as_deref(), Some("DeviceRGB"));
}

#[test]
fn test_parse_color_space_name_array() {
    let arr = CosObject::Array(vec![
        CosObject::Name(name("ICCBased")),
        CosObject::Reference(ObjectId::new(10, 0)),
    ]);
    assert_eq!(parse_color_space_name(Some(&arr)).as_deref(), Some("ICCBased"));
}

#[test]
fn test_parse_color_space_name_none() {
    assert_eq!(parse_color_space_name(None), None);
}

#[test]
fn test_parse_color_space_name_empty_array() {
    let arr = CosObject::Array(vec![]);
    assert_eq!(parse_color_space_name(Some(&arr)), None);
}

#[test]
fn parse_color_space_name_array_starting_with_non_name() {
    let arr = CosObject::Array(vec![CosObject::Integer(1), CosObject::Name(name("DeviceRGB"))]);
    assert_eq!(parse_color_space_name(Some(&arr)), None);
}

// ── parse_filter_names ─────────────────────────────────────────────────

#[test]
fn test_parse_filter_names_single() {
    let obj = CosObject::Name(name("DCTDecode"));
    assert_eq!(parse_filter_names(Some(&obj)), vec!["DCTDecode"]);
}

#[test]
fn test_parse_filter_names_array() {
    let obj = CosObject::Array(vec![
        CosObject::Name(name("FlateDecode")),
        CosObject::Name(name("DCTDecode")),
    ]);
    assert_eq!(parse_filter_names(Some(&obj)), vec!["FlateDecode", "DCTDecode"]);
}

#[test]
fn test_parse_filter_names_none() {
    let empty: Vec<String> = vec![];
    assert_eq!(parse_filter_names(None), empty);
}

#[test]
fn parse_filter_names_skips_non_names() {
    let obj = CosObject::Array(vec![
        CosObject::Integer(3),
        CosObject::Name(name("FlateDecode")),
        CosObject::Null,
    ]);
    assert_eq!(parse_filter_names(Some(&obj)), vec!["FlateDecode"]);
}

// ── normalize_inline_dict / value ──────────────────────────────────────

#[test]
fn test_normalize_inline_dict_abbreviations() {
    let mut d = CosDictionary::new();
    d.insert(name("W"), CosObject::Integer(100));
    d.insert(name("H"), CosObject::Integer(50));
    d.insert(name("BPC"), CosObject::Integer(8));
    d.insert(name("CS"), CosObject::Name(name("RGB")));
    let norm = normalize_inline_dict(&d);
    assert_eq!(norm.get_int(&name("Width")), Some(100));
    assert_eq!(norm.get_int(&name("Height")), Some(50));
    assert_eq!(norm.get_int(&name("BitsPerComponent")), Some(8));
    assert_eq!(
        norm.get_name(&name("ColorSpace")).map(|n| n.as_bytes().to_vec()),
        Some(b"DeviceRGB".to_vec())
    );
}

#[test]
fn test_normalize_inline_value_g_to_device_gray() {
    let v = CosObject::Name(name("G"));
    let norm = normalize_inline_value(&v);
    assert_eq!(name_str(&norm), Some("DeviceGray"));
}

#[test]
fn normalize_inline_value_expands_inside_arrays() {
    let v = CosObject::Array(vec![CosObject::Name(name("CMYK")), CosObject::Integer(2)]);
    let norm = normalize_inline_value(&v);
    let items = norm.as_array().unwrap();
    assert_eq!(name_str(&items[0]), Some("DeviceCMYK"));
    assert_eq!(items[1].as_integer(), Some(2));
}

// ── inline images ──────────────────────────────────────────────────────

#[test]
fn test_extract_inline_images_empty() {
    let data = [
        66, 84, 32, 47, 70, 49, 32, 49, 50, 32, 84, 102, 32, 40, 104, 101, 108, 108, 111, 41,
        32, 84, 106, 32, 69, 84, 32,
    ];
    let result = extract_inline_images(&data);
    assert!(result.is_empty());
}

#[test]
fn test_extract_inline_images_single() {
    let data = b"q BI /W 4 /H 2 /BPC 1 /CS /G ID data EI Q " as &[u8];
    let result = extract_inline_images(data);
    assert_eq!(result.len(), 1);
    assert_eq!(result[0].resource_name(), "inline_1");
    assert_eq!(result[0].width(), 4);
    assert_eq!(result[0].height(), 2);
    assert_eq!(result[0].bits_per_component(), 1);
}

#[test]
fn extract_inline_images_data_and_color_space() {
    let data = b"BI /W 1 /H 1 /CS /RGB /F /AHx ID abc EI " as &[u8];
    let result = extract_inline_images(data);
    assert_eq!(result.len(), 1);
    assert_eq!(result[0].encoded_bytes(), b"abc");
    assert_eq!(result[0].color_space(), Some("DeviceRGB"));
    assert_eq!(result[0].filter_names(), &["AHx".to_string()]);
    assert_eq!(result[0].object_id(), None);
}

#[test]
fn extract_inline_images_numbers_in_order() {
    let data = b"BI /W 1 ID xx EI BI /W 2 ID yy EI " as &[u8];
    let result = extract_inline_images(data);
    assert_eq!(result.len(), 2);
    assert_eq!(result[0].resource_name(), "inline_1");
    assert_eq!(result[1].resource_name(), "inline_2");
    assert_eq!(result[1].width(), 2);
}

#[test]
fn build_inline_image_defaults_and_clamps() {
    let img = build_inline_image(b"/W -5 /BPC 300", b"zz".to_vec(), 7).unwrap();
    assert_eq!(img.resource_name(), "inline_7");
    assert_eq!(img.width(), 0);
    assert_eq!(img.height(), 0);
    assert_eq!(img.bits_per_component(), 255);
    assert_eq!(img.color_space(), None);
    assert!(build_inline_image(b"/W 1 >> stream", Vec::new(), 1).is_none());
}

#[test]
fn test_is_white_space() {
    assert!(is_white(b' '));
    assert!(is_white(b'\t'));
    assert!(is_white(b'\n'));
    assert!(is_white(b'\r'));
    assert!(!is_white(b'a'));
    assert!(!is_white(b'<'));
}

#[test]
fn test_is_boundary_out_of_range() {
    let data = [97, 98, 99];
    assert!(is_boundary(&data, 10));
}

#[test]
fn test_find_id_marker_found() {
    let data = [66, 73, 32, 47, 87, 32, 52, 32, 73, 68, 32];
    let (dict_end, data_start) = find_id_marker(&data, 8).unwrap();
    assert!(data_start > dict_end);
}

#[test]
fn find_id_marker_positions() {
    let data = b"/W 4 ID\r\nxyz";
    assert_eq!(find_id_marker(data, 0), Some((5, 9)));
    assert_eq!(find_id_marker(b"xID a", 0), None);
}

#[test]
fn test_find_id_marker_not_found() {
    let data = [110, 111, 32, 109, 97, 114, 107, 101, 114, 32, 104, 101, 114, 101, 32];
    assert!(find_id_marker(&data, 0).is_none());
}

#[test]
fn test_find_ei_marker_found() {
    let data = [115, 111, 109, 101, 32, 100, 97, 116, 97, 32, 69, 73, 32, 101, 110, 100, 32];
    let pos = find_ei_marker(&data, 0);
    assert!(pos.is_some());
}

#[test]
fn find_ei_marker_position_is_before_the_space() {
    assert_eq!(find_ei_marker(b"data EI end", 0), Some(4));
}

#[test]
fn test_find_ei_marker_not_found() {
    let data = [110u8, 111, 32, 101, 105, 32, 104, 101, 114, 101, 32];
    assert!(find_ei_marker(&data, 0).is_none());
}

// ── decode_pixels ──────────────────────────────────────────────────────

fn make_rgb_palette() -> Vec<u8> {
    vec![255, 0, 0, 0, 255, 0, 0, 0, 255, 255, 255, 255]
}

fn make_image(
    width: u32,
    height: u32,
    color_space: Option<&str>,
    data: Vec<u8>,
    cs_obj: Option<CosObject>,
) -> PdImage {
    PdImage {
        object_id: None,
        resource_name: "Im0".to_string(),
        width,
        height,
        bits_per_component: 8,
        color_space: color_space.map(|s| s.to_string()),
        color_space_obj: cs_obj,
        smask: None,
        filter_names: vec![],
        data,
        filter: None,
    }
}

#[test]
fn decode_pixels_rgb_no_filter() {
    let img = make_image(2, 2, Some("DeviceRGB"), vec![255, 0, 0, 0, 255, 0, 0, 0, 255, 255, 255, 255], None);
    let pixels = img.decode_pixels().unwrap();
    assert_eq!(pixels.len(), 12);
}

#[test]
fn decode_pixels_gray_no_filter() {
    let img = make_image(2, 1, Some("DeviceGray"), vec![128, 200], None);
    let pixels = img.decode_pixels().unwrap();
    assert_eq!(pixels.len(), 2);
}

#[test]
fn decode_pixels_unsupported_bpp() {
    let mut img = make_image(1, 1, Some("DeviceRGB"), vec![255, 0, 0], None);
    img.bits_per_component = 1;
    assert!(img.decode_pixels().is_err());
}

#[test]
fn decode_pixels_dct_unsupported() {
    let mut img = make_image(1, 1, Some("DeviceRGB"), vec![255, 0, 0], None);
    img.filter_names = vec!["DCTDecode".to_string()];
    assert!(img.decode_pixels().is_err());
}

#[test]
fn decode_pixels_buffer_too_short() {
    let img = make_image(10, 10, Some("DeviceRGB"), vec![0; 50], None);
    assert!(img.decode_pixels().is_err());
}

#[test]
fn decode_pixels_too_short_message() {
    let img = make_image(10, 10, Some("DeviceRGB"), vec![0; 50], None);
    match img.decode_pixels() {
        Err(PdfError::Parse { offset: None, context }) => {
            assert_eq!(context, "decoded image buffer too short: got 50, expected at least 300")
        }
        other => panic!("unexpected {:?}", other),
    }
}

#[test]
fn decode_pixels_through_hex_filter() {
    let mut img = make_image(1, 1, Some("DeviceGray"), b"7f>".to_vec(), None);
    img.filter = Some(CosObject::Name(name("ASCIIHexDecode")));
    assert_eq!(img.decode_pixels().unwrap(), vec![0x7f]);
}

#[test]
fn decode_pixels_unknown_color_space() {
    let img = make_image(1, 1, Some("Lab"), vec![1, 2, 3], None);
    assert!(matches!(img.decode_pixels(), Err(PdfError::Unsupported { .. })));
}

#[test]
fn decode_pixels_icc_uses_component_count() {
    let mut profile = CosDictionary::new();
    profile.insert(name("N"), CosObject::Integer(1));
    let cs = CosObject::Array(vec![CosObject::Name(name("ICCBased")), CosObject::Dictionary(profile)]);
    let img = make_image(2, 1, Some("ICCBased"), vec![5, 6], Some(cs));
    assert_eq!(img.effective_color_space().as_deref(), Some("DeviceGray"));
    assert_eq!(img.decode_pixels().unwrap(), vec![5, 6]);
}

fn indexed(base: &str, hival: i64, lookup: Vec<u8>) -> CosObject {
    CosObject::Array(vec![
        CosObject::Name(name("Indexed")),
        CosObject::Name(name(base)),
        CosObject::Integer(hival),
        CosObject::String(lookup),
    ])
}

#[test]
fn expand_indexed_basic() {
    let cs_obj = indexed("DeviceRGB", 3, make_rgb_palette());
    let img = make_image(2, 2, Some("Indexed"), vec![0, 1, 2, 3], Some(cs_obj));
    let expanded = img.decode_pixels().unwrap();
    assert_eq!(expanded.len(), 12);
    assert_eq!(&expanded[0..3], &[255, 0, 0]);
    assert_eq!(&expanded[3..6], &[0, 255, 0]);
    assert_eq!(&expanded[6..9], &[0, 0, 255]);
    assert_eq!(&expanded[9..12], &[255, 255, 255]);
}

#[test]
fn expand_indexed_no_cs_obj() {
    let img = make_image(1, 1, Some("Indexed"), vec![0], None);
    assert!(img.decode_pixels().is_err());
}

#[test]
fn expand_indexed_non_rgb_base() {
    let cs_obj = indexed("DeviceGray", 0, vec![0, 0, 0]);
    let img = make_image(1, 1, Some("Indexed"), vec![0], Some(cs_obj));
    assert!(img.decode_pixels().is_err());
}

#[test]
fn expand_indexed_too_short_lookup() {
    let cs_obj = indexed("DeviceRGB", 3, vec![255, 0, 0]);
    let img = make_image(1, 1, Some("Indexed"), vec![0], Some(cs_obj));
    assert!(img.decode_pixels().is_err());
}

#[test]
fn expand_indexed_pixel_exceeds_hival() {
    let cs_obj = indexed("DeviceRGB", 1, make_rgb_palette());
    let img = make_image(1, 1, Some("Indexed"), vec![3], Some(cs_obj));
    match img.decode_pixels() {
        Err(PdfError::Parse { context, .. }) => assert_eq!(context, "indexed pixel value 3 exceeds hival 1"),
        other => panic!("unexpected {:?}", other),
    }
}

#[test]
fn expand_indexed_negative_hival() {
    let cs_obj = indexed("DeviceRGB", -1, vec![0, 0, 0]);
    let img = make_image(1, 1, Some("Indexed"), vec![0], Some(cs_obj));
    assert!(img.decode_pixels().is_err());
}

#[test]
fn expand_indexed_cs_array_too_short() {
    let cs_obj = CosObject::Array(vec![CosObject::Name(name("Indexed")), CosObject::Name(name("DeviceRGB"))]);
    let img = make_image(1, 1, Some("Indexed"), vec![0], Some(cs_obj));
    assert!(img.decode_pixels().is_err());
}

// ── export helpers ─────────────────────────────────────────────────────

#[test]
fn interleave_luma_alpha_equal() {
    let out = interleave_luma_alpha(b"\x10\x20\x30", b"\x80\x90\xa0");
    assert_eq!(out, b"\x10\x80\x20\x90\x30\xa0");
}

#[test]
fn interleave_luma_alpha_luma_shorter() {
    let out = interleave_luma_alpha(b"\x10\x20", b"\x80\x90\xa0");
    assert_eq!(out, b"\x10\x80\x20\x90");
}

#[test]
fn interleave_luma_alpha_empty() {
    assert!(interleave_luma_alpha(b"", b"").is_empty());
}

#[test]
fn interleave_rgb_alpha_equal() {
    let out = interleave_rgb_alpha(b"\xff\x00\x00\x00\xff\x00\x00\x00\xff", b"\x80\x40\xff");
    assert_eq!(out.len(), 12);
    assert_eq!(&out[0..4], &[0xff, 0x00, 0x00, 0x80]);
    assert_eq!(&out[4..8], &[0x00, 0xff, 0x00, 0x40]);
    assert_eq!(&out[8..12], &[0x00, 0x00, 0xff, 0xff]);
}

#[test]
fn interleave_rgb_alpha_empty() {
    assert!(interleave_rgb_alpha(b"", b"").is_empty());
}

#[test]
fn cmyk_to_rgb_black() {
    assert_eq!(cmyk_to_rgb8_for_png(&[0, 0, 0, 255]), &[0, 0, 0]);
}

#[test]
fn cmyk_to_rgb_white() {
    assert_eq!(cmyk_to_rgb8_for_png(&[0, 0, 0, 0]), &[255, 255, 255]);
}

#[test]
fn cmyk_to_rgb_cyan() {
    let rgb = cmyk_to_rgb8_for_png(&[255, 0, 0, 0]);
    assert_eq!(rgb[0], 0);
    assert!((rgb[1] as u16).abs_diff(255) <= 1);
    assert!((rgb[2] as u16).abs_diff(255) <= 1);
}

#[test]
fn cmyk_to_rgb_multiple_pixels() {
    let rgb = cmyk_to_rgb8_for_png(b"\x00\x00\x00\x00\x00\x00\x00\xff");
    assert_eq!(rgb.len(), 6);
    assert_eq!(&rgb[0..3], &[255, 255, 255]);
    assert_eq!(&rgb[3..6], &[0, 0, 0]);
}

#[test]
fn cmyk_half_values_round() {
    // (255 - 128) * 255 + 127 = 32512, / 255 = 127
    assert_eq!(cmyk_to_rgb8_for_png(&[128, 0, 255, 0, 9]), &[127, 255, 0]);
}

#[test]
fn raster_buffer_gray_with_alpha() {
    let img = make_image(2, 1, Some("DeviceGray"), vec![1, 2], None);
    let (buf, color) = img.raster_buffer(vec![1, 2], Some(vec![9, 8])).unwrap();
    assert_eq!(buf, vec![1, 9, 2, 8]);
    assert_eq!(color, RasterColor::La8);
}

#[test]
fn prepare_raster_with_soft_mask() {
    let mut img = make_image(2, 1, Some("DeviceRGB"), vec![1, 2, 3, 4, 5, 6], None);
    img.smask = Some(ImageMask { width: 2, height: 1, bits_per_component: 8, data: vec![7, 8], filter: None });
    let (buf, color) = img.prepare_raster_export_buffer().unwrap();
    assert_eq!(buf, vec![1, 2, 3, 7, 4, 5, 6, 8]);
    assert_eq!(color, RasterColor::Rgba8);
}

#[test]
fn smask_dimension_mismatch_is_an_error() {
    let mut img = make_image(2, 1, Some("DeviceGray"), vec![1, 2], None);
    img.smask = Some(ImageMask { width: 1, height: 1, bits_per_component: 8, data: vec![7], filter: None });
    match img.decode_smask_alpha() {
        Err(PdfError::Parse { context, .. }) => assert_eq!(context, "SMask dimensions do not match image dimensions"),
        other => panic!("unexpected {:?}", other),
    }
}

#[test]
fn jpeg_passthrough_needs_dct() {
    let mut img = make_image(1, 1, Some("DeviceRGB"), vec![0xff, 0xd8], None);
    assert!(img.jpeg_passthrough().is_err());
    img.filter_names = vec!["DCTDecode".to_string()];
    assert_eq!(img.jpeg_passthrough().unwrap(), &[0xff, 0xd8]);
}

#[test]
fn icc_with_a_broken_profile_gives_a_blank_image() {
    let img = pdfbox::image_extract::lcms::apply_icc_profile(&[10, 20, 30, 40, 50, 60], b"not a profile", 2, 1, 3);
    assert_eq!(img.width, 2);
    assert_eq!(img.height, 1);
    assert_eq!(img.pixels, vec![0u8; 8]);
}

#[test]
fn icc_srgb_to_srgb_keeps_the_colour() {
    let profile = lcms2::Profile::new_srgb().icc().unwrap();
    let img = pdfbox::image_extract::lcms::apply_icc_profile(&[255, 0, 0], &profile, 1, 1, 3);
    assert_eq!(img.pixels.len(), 4);
    assert!(img.pixels[0] > 250);
    assert!(img.pixels[1] < 5);
    assert!(img.pixels[2] < 5);
}

//! Decoding an image's data to pixel bytes.

use vstd::prelude::*;
use crate::bytes::eq_str;
use crate::cos::{CosObject, CosValue};
use crate::document::{PdfError, PdfResult};
use crate::image_extract::{PdImage, effective_cs, opt_text, opt_view, texts};
use crate::io::{Decoded, decode_spec};
use crate::text::{decimal_text, push_digits, push_str, str_eq};

verus! {

/// The image's filters include one whose pixels are not decoded here.
pub open spec fn undecodable(names: Seq<Seq<char>>) -> bool {
    exists|k: int| 0 <= k < names.len() && is_undecodable_name(#[trigger] names[k])
}

pub open spec fn is_undecodable_name(n: Seq<char>) -> bool {
    n == "DCTDecode"@ || n == "DCT"@ || n == "JPXDecode"@ || n == "CCITTFaxDecode"@
}

/// Bytes per pixel in a colour space; 0 for those not decoded here.
pub open spec fn channels_of(cs: Option<Seq<char>>) -> int {
    if cs == Some("DeviceGray"@) {
        1
    } else if cs == Some("DeviceRGB"@) {
        3
    } else if cs == Some("DeviceCMYK"@) {
        4
    } else if cs == Some("Indexed"@) {
        1
    } else {
        0
    }
}

/// `r` is the "unsupported feature" error with message `msg`.
pub open spec fn unsupported<T>(r: PdfResult<T>, msg: Seq<char>) -> bool {
    r matches Err(PdfError::Unsupported { feature }) && feature@ == msg
}

/// `r` is a parse error with no offset and message `msg`.
pub open spec fn parse_failure<T>(r: PdfResult<T>, msg: Seq<char>) -> bool {
    r matches Err(PdfError::Parse { offset: None, context }) && context@ == msg
}

/// The first pixel from `k` below `n` whose palette index is above `hival`.
pub open spec fn first_over(dec: Seq<u8>, k: int, n: int, hival: int) -> Option<int>
    decreases n - k,
{
    if k >= n {
        None
    } else if dec[k] > hival {
        Some(k)
    } else {
        first_over(dec, k + 1, n, hival)
    }
}

/// The RGB bytes of the first `n` palette indices of `dec`.
pub open spec fn palette_rgb(dec: Seq<u8>, n: int, lookup: Seq<u8>) -> Seq<u8> {
    Seq::new((3 * n) as nat, |q: int| lookup[dec[q / 3] * 3 + q % 3])
}

/// Expanding palette indices with a palette of `hival + 1` RGB entries.
pub open spec fn lookup_result(img: PdImage, dec: Seq<u8>, hival: int, lookup: Seq<u8>, r: PdfResult<Vec<u8>>) -> bool {
    let palette_len = (hival + 1) * 3;
    let n = img.width * img.height;
    if lookup.len() < palette_len {
        parse_failure(r, "Indexed lookup table too short: got "@ + decimal_text(lookup.len() as int)
            + ", need at least "@ + decimal_text(palette_len))
    } else if dec.len() < n {
        parse_failure(r, "decoded indexed buffer too short: got "@ + decimal_text(dec.len() as int)
            + ", expected at least "@ + decimal_text(n))
    } else {
        match first_over(dec, 0, n, hival) {
            Some(k) => parse_failure(r, "indexed pixel value "@ + decimal_text(dec[k] as int) + " exceeds hival "@
                + decimal_text(hival)),
            None => r is Ok && r->Ok_0@ == palette_rgb(dec, n, lookup),
        }
    }
}

/// Expanding an `Indexed` image's palette indices `dec` to RGB bytes.
pub open spec fn indexed_result(img: PdImage, dec: Seq<u8>, r: PdfResult<Vec<u8>>) -> bool {
    match opt_view(img.color_space_obj) {
        Some(CosValue::Array(a)) => if a.len() < 4 {
            parse_failure(r, "Indexed ColorSpace array is too short"@)
        } else if a[1] != CosValue::Name(crate::bytes::lit("DeviceRGB")) {
            unsupported(r, "Indexed decode currently supports only DeviceRGB base color space"@)
        } else {
            match a[2] {
                CosValue::Integer(h) => if h < 0 {
                    parse_failure(r, "Indexed ColorSpace hival must be non-negative"@)
                } else {
                    match a[3] {
                        CosValue::Str(lookup) => lookup_result(img, dec, h, lookup, r),
                        _ => unsupported(r, "Indexed decode currently supports only string/hex lookup tables"@),
                    }
                },
                _ => parse_failure(r, "Indexed ColorSpace hival must be an integer"@),
            }
        },
        _ => unsupported(r, "Indexed decode requires ColorSpace array"@),
    }
}

/// The pixels of `img` from its decoded data `dec`.
pub open spec fn pixel_result(img: PdImage, dec: Seq<u8>, r: PdfResult<Vec<u8>>) -> bool {
    let ch = channels_of(effective_cs(img));
    let expected = img.width * img.height * ch;
    if ch == 0 {
        unsupported(r, "image decode supports only DeviceGray/DeviceRGB/DeviceCMYK/Indexed/ICCBased in this phase"@)
    } else if dec.len() < expected {
        parse_failure(r, "decoded image buffer too short: got "@ + decimal_text(dec.len() as int)
            + ", expected at least "@ + decimal_text(expected))
    } else if opt_text(img.color_space) == Some("Indexed"@) {
        indexed_result(img, dec, r)
    } else {
        r is Ok && r->Ok_0@ == dec
    }
}

/// The RGB bytes an `Indexed` image's palette indices `dec` expand to;
/// `None` where `indexed_result` gives an error.
pub open spec fn indexed_value(img: PdImage, dec: Seq<u8>) -> Option<Seq<u8>> {
    match opt_view(img.color_space_obj) {
        Some(CosValue::Array(a)) => if a.len() < 4 || a[1] != CosValue::Name(crate::bytes::lit("DeviceRGB")) {
            None
        } else {
            match (a[2], a[3]) {
                (CosValue::Integer(h), CosValue::Str(lookup)) => {
                    let n = img.width * img.height;
                    if h < 0 || lookup.len() < (h + 1) * 3 || dec.len() < n || first_over(dec, 0, n, h) is Some {
                        None
                    } else {
                        Some(palette_rgb(dec, n, lookup))
                    }
                },
                _ => None,
            }
        },
        _ => None,
    }
}

/// The pixels `decode_pixels` gives for `img`; `None` where it gives an
/// error.
pub open spec fn pixels_value(img: PdImage) -> Option<Seq<u8>> {
    if img.bits_per_component != 8 || undecodable(texts(img.filter_names@)) {
        None
    } else {
        match decode_spec(img.data@, opt_view(img.filter)) {
            Decoded::Out(dec) => {
                let ch = channels_of(effective_cs(img));
                if ch == 0 || dec.len() < img.width * img.height * ch {
                    None
                } else if opt_text(img.color_space) == Some("Indexed"@) {
                    indexed_value(img, dec)
                } else {
                    Some(dec)
                }
            },
            _ => None,
        }
    }
}

/// The sizes computed while decoding fit in `usize`: the pixel buffer, and
/// an `Indexed` palette.
pub open spec fn decode_sizes_fit(img: PdImage) -> bool {
    &&& img.width * img.height * channels_of(effective_cs(img)) <= usize::MAX
    &&& match opt_view(img.color_space_obj) {
        Some(CosValue::Array(a)) => a.len() >= 4 ==> match a[2] {
            CosValue::Integer(h) => h >= 0 ==> (h + 1) * 3 <= usize::MAX,
            _ => true,
        },
        _ => true,
    }
}

/// `r` is the error for data the image's filters could not decode.
pub open spec fn decode_failure(r: PdfResult<Vec<u8>>) -> bool {
    r matches Err(PdfError::Parse { offset: None, context }) && "image stream decode failed: "@.is_prefix_of(context@)
}

fn has_undecodable_filter(names: &[String]) -> (r: bool)
    ensures r == undecodable(texts(names@)),
{
    let mut i: usize = 0;
    while i < names.len()
        invariant
            i <= names@.len(),
            forall|k: int| 0 <= k < i ==> !is_undecodable_name(#[trigger] texts(names@)[k]),
        decreases names.len() - i,
    {
        let n = names[i].as_str();
        if str_eq(n, "DCTDecode") || str_eq(n, "DCT") || str_eq(n, "JPXDecode") || str_eq(n, "CCITTFaxDecode") {
            proof { assert(is_undecodable_name(texts(names@)[i as int])); }
            return true;
        }
        i += 1;
    }
    false
}

fn too_short_message(what: &str, got: usize, need_word: &str, need: usize) -> (r: String)
    ensures r@ == what@ + decimal_text(got as int) + need_word@ + decimal_text(need as int),
{
    let mut m = String::new();
    push_str(&mut m, what);
    push_digits(&mut m, got as u64);
    push_str(&mut m, need_word);
    push_digits(&mut m, need as u64);
    proof { assert(m@ =~= what@ + decimal_text(got as int) + need_word@ + decimal_text(need as int)); }
    m
}

fn parse_err(context: String) -> (r: PdfError)
    ensures r == (PdfError::Parse { offset: None, context }),
{
    PdfError::Parse { offset: None, context }
}

impl PdImage {
    /// The pixel bytes of 8-bit images: decodes the data through its
    /// filters, then checks it against the colour space (see
    /// `pixel_result`).
    pub fn decode_pixels(&self) -> (r: PdfResult<Vec<u8>>)
        requires
            self.bits_per_component == 8 ==> decode_sizes_fit(*self),
        ensures
            self.bits_per_component != 8 ==> unsupported(r, "image decode supports only 8 bits/component in this phase"@),
            self.bits_per_component == 8 && undecodable(texts(self.filter_names@)) ==> unsupported(r,
                "pixel decode for DCT/JPX/CCITT images is not implemented yet"@),
            self.bits_per_component == 8 && !undecodable(texts(self.filter_names@)) ==> match decode_spec(self.data@, opt_view(self.filter)) {
                Decoded::Out(dec) => pixel_result(*self, dec, r),
                _ => decode_failure(r),
            },
            match pixels_value(*self) {
                Some(px) => r is Ok && r->Ok_0@ == px,
                None => r is Err,
            },
    {
        if self.bits_per_component != 8 {
            return Err(PdfError::Unsupported { feature: "image decode supports only 8 bits/component in this phase" });
        }
        if has_undecodable_filter(self.filter_names.as_slice()) {
            return Err(PdfError::Unsupported { feature: "pixel decode for DCT/JPX/CCITT images is not implemented yet" });
        }
        let filter: Option<&CosObject> = match &self.filter {
            Some(f) => Some(f),
            None => None,
        };
        let decoded = match crate::io::decode_stream(self.data.as_slice(), filter) {
            Ok(d) => d,
            Err(e) => {
                let mut m = String::new();
                push_str(&mut m, "image stream decode failed: ");
                let t = e.to_text();
                push_str(&mut m, t.as_str());
                proof {
                    assert(m@ =~= "image stream decode failed: "@ + t@);
                    assert(m@.subrange(0, "image stream decode failed: "@.len() as int) =~= "image stream decode failed: "@);
                }
                return Err(parse_err(m));
            }
        };
        self.pixels_from_decoded(decoded)
    }

    /// The pixel bytes of an 8-bit image from its decoded data (see
    /// `pixel_result`).
    pub fn pixels_from_decoded(&self, decoded: Vec<u8>) -> (r: PdfResult<Vec<u8>>)
        requires decode_sizes_fit(*self),
        ensures pixel_result(*self, decoded@, r),
    {
        let cs = self.effective_color_space();
        let channels: usize = match &cs {
            Some(c) => if str_eq(c.as_str(), "DeviceGray") {
                1
            } else if str_eq(c.as_str(), "DeviceRGB") {
                3
            } else if str_eq(c.as_str(), "DeviceCMYK") {
                4
            } else if str_eq(c.as_str(), "Indexed") {
                1
            } else {
                0
            },
            None => 0,
        };
        if channels == 0 {
            return Err(PdfError::Unsupported {
                feature: "image decode supports only DeviceGray/DeviceRGB/DeviceCMYK/Indexed/ICCBased in this phase",
            });
        }
        let ghost ch = channels as int;
        proof {
            assert(ch == channels_of(effective_cs(*self)));
            assert(self.width * self.height * ch <= usize::MAX);
            assert(0 <= self.width * self.height <= self.width * self.height * ch) by (nonlinear_arith)
                requires ch >= 1, self.width >= 0, self.height >= 0;
        }
        let wh = self.width as usize * self.height as usize;
        let expected = wh * channels;
        if decoded.len() < expected {
            return Err(parse_err(too_short_message("decoded image buffer too short: got ", decoded.len(),
                ", expected at least ", expected)));
        }
        let is_indexed = match &self.color_space {
            Some(c) => str_eq(c.as_str(), "Indexed"),
            None => false,
        };
        if is_indexed {
            return self.expand_indexed(decoded);
        }
        Ok(decoded)
    }

    fn expand_indexed(&self, indices: Vec<u8>) -> (r: PdfResult<Vec<u8>>)
        requires
            decode_sizes_fit(*self),
            self.width * self.height <= usize::MAX,
        ensures indexed_result(*self, indices@, r),
    {
        let cs_arr = match &self.color_space_obj {
            Some(CosObject::Array(values)) => values,
            _ => return Err(PdfError::Unsupported { feature: "Indexed decode requires ColorSpace array" }),
        };
        proof { crate::cos::lemma_view_objs(cs_arr@); }
        if cs_arr.len() < 4 {
            let mut m = String::new();
            push_str(&mut m, "Indexed ColorSpace array is too short");
            proof { assert(m@ =~= "Indexed ColorSpace array is too short"@); }
            return Err(parse_err(m));
        }
        let base_ok = match &cs_arr[1] {
            CosObject::Name(n) => eq_str(n.as_bytes(), "DeviceRGB"),
            _ => false,
        };
        if !base_ok {
            return Err(PdfError::Unsupported { feature: "Indexed decode currently supports only DeviceRGB base color space" });
        }
        let hival_i = match &cs_arr[2] {
            CosObject::Integer(h) => *h,
            _ => {
                let mut m = String::new();
                push_str(&mut m, "Indexed ColorSpace hival must be an integer");
                proof { assert(m@ =~= "Indexed ColorSpace hival must be an integer"@); }
                return Err(parse_err(m));
            }
        };
        if hival_i < 0 {
            let mut m = String::new();
            push_str(&mut m, "Indexed ColorSpace hival must be non-negative");
            proof { assert(m@ =~= "Indexed ColorSpace hival must be non-negative"@); }
            return Err(parse_err(m));
        }
        let hival = hival_i as usize;
        let lookup: &Vec<u8> = match &cs_arr[3] {
            CosObject::String(v) => v,
            _ => return Err(PdfError::Unsupported { feature: "Indexed decode currently supports only string/hex lookup tables" }),
        };
        let palette_len = (hival + 1) * 3;
        if lookup.len() < palette_len {
            return Err(parse_err(too_short_message("Indexed lookup table too short: got ", lookup.len(),
                ", need at least ", palette_len)));
        }
        let pixel_count = self.width as usize * self.height as usize;
        if indices.len() < pixel_count {
            return Err(parse_err(too_short_message("decoded indexed buffer too short: got ", indices.len(),
                ", expected at least ", pixel_count)));
        }
        let ghost dec = indices@;
        let ghost lk = lookup@;
        let ghost a0 = crate::cos::view_objs(cs_arr@);
        proof {
            assert(opt_view(self.color_space_obj) == Some(CosValue::Array(a0)));
            assert(a0[2] == CosValue::Integer(hival as int));
            assert(a0[3] == CosValue::Str(lk));
        }
        let mut out: Vec<u8> = Vec::new();
        let mut k: usize = 0;
        while k < pixel_count
            invariant
                k <= pixel_count,
                pixel_count <= dec.len(),
                dec == indices@,
                lk == lookup@,
                palette_len == (hival + 1) * 3,
                palette_len <= lk.len(),
                first_over(dec, 0, pixel_count as int, hival as int) == first_over(dec, k as int, pixel_count as int, hival as int),
                out@ == palette_rgb(dec, k as int, lk),
                opt_view(self.color_space_obj) == Some(CosValue::Array(a0)),
                a0.len() >= 4,
                a0[1] == CosValue::Name(crate::bytes::lit("DeviceRGB")),
                a0[2] == CosValue::Integer(hival as int),
                a0[3] == CosValue::Str(lk),
                pixel_count as int == self.width * self.height,
            decreases pixel_count - k,
        {
            let idx = indices[k] as usize;
            if idx > hival {
                let mut m = String::new();
                push_str(&mut m, "indexed pixel value ");
                push_digits(&mut m, idx as u64);
                push_str(&mut m, " exceeds hival ");
                push_digits(&mut m, hival as u64);
                proof {
                    assert(first_over(dec, k as int, pixel_count as int, hival as int) == Some(k as int));

                    assert(m@ =~= "indexed pixel value "@ + decimal_text(dec[k as int] as int) + " exceeds hival "@
                        + decimal_text(hival as int));
                }
                return Err(parse_err(m));
            }
            let p = idx * 3;
            let ghost before = out@;
            out.push(lookup[p]);
            out.push(lookup[p + 1]);
            out.push(lookup[p + 2]);
            proof {
                assert forall|q: int| 0 <= q < 3 * (k + 1) implies #[trigger] out@[q] == lk[dec[q / 3] * 3 + q % 3] by {
                    if q < 3 * k {
                        assert(out@[q] == before[q]);
                    } else {
                        assert(q / 3 == k as int && q % 3 == q - 3 * k) by (nonlinear_arith)
                            requires 3 * k <= q < 3 * (k + 1);
                    }
                }
                assert(out@ =~= palette_rgb(dec, k + 1, lk));
            }
            k += 1;
        }
        Ok(out)
    }
}

} // verus!

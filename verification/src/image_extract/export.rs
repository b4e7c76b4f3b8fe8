//! Preparing an image for writing to a file: the raster bytes in a pixel
//! layout an image file can hold, with the soft mask as alpha.

use vstd::prelude::*;
use crate::cos::CosObject;
use crate::document::{PdfError, PdfResult};
use crate::image_extract::{PdImage, effective_cs, opt_view, texts};
use crate::image_extract::decode::{decode_sizes_fit, parse_failure, pixels_value, unsupported};
use crate::io::{Decoded, decode_spec};
use crate::text::{decimal_text, push_digits, push_str, str_eq};

verus! {

/// The pixel layouts of the raster buffers: 8 bits per channel.
#[derive(Debug, Clone, Copy, PartialEq, Eq, Structural)]
pub enum RasterColor {
    /// Gray.
    L8,
    /// Gray and alpha.
    La8,
    /// Red, green, blue.
    Rgb8,
    /// Red, green, blue and alpha.
    Rgba8,
}

pub open spec fn min(a: int, b: int) -> int {
    if a < b { a } else { b }
}

/// Gray and alpha bytes interleaved, as many pixels as both have.
pub open spec fn luma_alpha(luma: Seq<u8>, alpha: Seq<u8>) -> Seq<u8> {
    Seq::new((2 * min(luma.len() as int, alpha.len() as int)) as nat,
        |q: int| if q % 2 == 0 { luma[q / 2] } else { alpha[q / 2] })
}

/// RGB triples and alpha bytes interleaved, as many pixels as both have.
pub open spec fn rgb_alpha(rgb: Seq<u8>, alpha: Seq<u8>) -> Seq<u8> {
    Seq::new((4 * min((rgb.len() / 3) as int, alpha.len() as int)) as nat,
        |q: int| if q % 4 < 3 { rgb[(q / 4) * 3 + q % 4] } else { alpha[q / 4] })
}

/// One RGB channel of a CMYK pixel: `(255 - x)(255 - k) / 255`, rounded.
pub open spec fn cmyk_channel(x: u8, k: u8) -> u8 {
    (((255 - x) * (255 - k) + 127) / 255) as u8
}

/// The RGB bytes of the whole CMYK pixels of `cmyk`.
pub open spec fn cmyk_rgb(cmyk: Seq<u8>) -> Seq<u8> {
    Seq::new((3 * (cmyk.len() / 4)) as nat,
        |q: int| cmyk_channel(cmyk[(q / 3) * 4 + q % 3], cmyk[(q / 3) * 4 + 3]))
}

/// Interleaves gray and alpha bytes.
pub fn interleave_luma_alpha(luma: &[u8], alpha: &[u8]) -> (r: Vec<u8>)
    ensures r@ == luma_alpha(luma@, alpha@),
{
    let count = if luma.len() < alpha.len() { luma.len() } else { alpha.len() };
    let mut out: Vec<u8> = Vec::new();
    let mut i: usize = 0;
    while i < count
        invariant
            count == min(luma@.len() as int, alpha@.len() as int),
            i <= count,
            out@.len() == 2 * i,
            forall|q: int| 0 <= q < 2 * i ==> #[trigger] out@[q] == if q % 2 == 0 { luma@[q / 2] } else { alpha@[q / 2] },
        decreases count - i,
    {
        let ghost before = out@;
        out.push(luma[i]);
        out.push(alpha[i]);
        proof {
            assert forall|q: int| 0 <= q < 2 * (i + 1) implies #[trigger] out@[q] == if q % 2 == 0 { luma@[q / 2] } else { alpha@[q / 2] } by {
                if q < 2 * i {
                    assert(out@[q] == before[q]);
                } else {
                    assert(q / 2 == i as int && q % 2 == q - 2 * i) by (nonlinear_arith)
                        requires 2 * i <= q < 2 * (i + 1);
                }
            }
        }
        i += 1;
    }
    proof { assert(out@ =~= luma_alpha(luma@, alpha@)); }
    out
}

/// Interleaves RGB triples and alpha bytes.
pub fn interleave_rgb_alpha(rgb: &[u8], alpha: &[u8]) -> (r: Vec<u8>)
    ensures r@ == rgb_alpha(rgb@, alpha@),
{
    let whole = rgb.len() / 3;
    let pixels = if whole < alpha.len() { whole } else { alpha.len() };
    assert(3 * (rgb@.len() / 3) <= rgb@.len());
    let mut out: Vec<u8> = Vec::new();
    let mut i: usize = 0;
    while i < pixels
        invariant
            pixels == min((rgb@.len() / 3) as int, alpha@.len() as int),
            3 * pixels <= rgb@.len(),
            rgb@.len() <= usize::MAX,
            i <= pixels,
            out@.len() == 4 * i,
            forall|q: int| 0 <= q < 4 * i ==> #[trigger] out@[q] == if q % 4 < 3 { rgb@[(q / 4) * 3 + q % 4] } else { alpha@[q / 4] },
        decreases pixels - i,
    {
        let p = i + i + i;
        let ghost before = out@;
        out.push(rgb[p]);
        out.push(rgb[p + 1]);
        out.push(rgb[p + 2]);
        out.push(alpha[i]);
        proof {
            assert forall|q: int| 0 <= q < 4 * (i + 1) implies #[trigger] out@[q] == if q % 4 < 3 { rgb@[(q / 4) * 3 + q % 4] } else { alpha@[q / 4] } by {
                if q < 4 * i {
                    assert(out@[q] == before[q]);
                } else {
                    assert(q / 4 == i as int && q % 4 == q - 4 * i) by (nonlinear_arith)
                        requires 4 * i <= q < 4 * (i + 1);
                }
            }
        }
        i += 1;
    }
    proof { assert(out@ =~= rgb_alpha(rgb@, alpha@)); }
    out
}

fn cmyk_channel_exec(x: u8, k: u8) -> (r: u8)
    ensures r == cmyk_channel(x, k),
{
    let a = 255 - x as u16;
    let b = 255 - k as u16;
    proof {
        assert(a * b <= 255 * 255) by (nonlinear_arith)
            requires a <= 255, b <= 255;
    }
    let v = (a * b + 127) / 255;
    v as u8
}

/// The RGB bytes of CMYK pixels, by `(255 - C)(255 - K) / 255` and likewise
/// for M and Y; a trailing partial pixel is left out.
pub fn cmyk_to_rgb8_for_png(cmyk: &[u8]) -> (r: Vec<u8>)
    ensures r@ == cmyk_rgb(cmyk@),
{
    let pixels = cmyk.len() / 4;
    assert(4 * (cmyk@.len() / 4) <= cmyk@.len());
    let mut out: Vec<u8> = Vec::new();
    let mut i: usize = 0;
    while i < pixels
        invariant
            pixels == cmyk@.len() / 4,
            4 * pixels <= cmyk@.len(),
            cmyk@.len() <= usize::MAX,
            i <= pixels,
            out@.len() == 3 * i,
            forall|q: int| 0 <= q < 3 * i ==> #[trigger] out@[q] == cmyk_channel(cmyk@[(q / 3) * 4 + q % 3], cmyk@[(q / 3) * 4 + 3]),
        decreases pixels - i,
    {
        let p = i + i + i + i;
        let k = cmyk[p + 3];
        let ghost before = out@;
        out.push(cmyk_channel_exec(cmyk[p], k));
        out.push(cmyk_channel_exec(cmyk[p + 1], k));
        out.push(cmyk_channel_exec(cmyk[p + 2], k));
        proof {
            assert forall|q: int| 0 <= q < 3 * (i + 1) implies #[trigger] out@[q] == cmyk_channel(cmyk@[(q / 3) * 4 + q % 3], cmyk@[(q / 3) * 4 + 3]) by {
                if q < 3 * i {
                    assert(out@[q] == before[q]);
                } else {
                    assert(q / 3 == i as int && q % 3 == q - 3 * i) by (nonlinear_arith)
                        requires 3 * i <= q < 3 * (i + 1);
                }
            }
        }
        i += 1;
    }
    proof { assert(out@ =~= cmyk_rgb(cmyk@)); }
    out
}

/// The raster buffer and its layout for pixels in colour space `cs`, with
/// optional alpha; `None` for colour spaces that cannot be written.
pub open spec fn raster_spec(cs: Seq<char>, px: Seq<u8>, alpha: Option<Seq<u8>>) -> Option<(Seq<u8>, RasterColor)> {
    if cs == "DeviceGray"@ {
        match alpha {
            Some(a) => Some((luma_alpha(px, a), RasterColor::La8)),
            None => Some((px, RasterColor::L8)),
        }
    } else if cs == "DeviceRGB"@ || cs == "Indexed"@ {
        match alpha {
            Some(a) => Some((rgb_alpha(px, a), RasterColor::Rgba8)),
            None => Some((px, RasterColor::Rgb8)),
        }
    } else if cs == "DeviceCMYK"@ {
        match alpha {
            Some(a) => Some((rgb_alpha(cmyk_rgb(px), a), RasterColor::Rgba8)),
            None => Some((cmyk_rgb(px), RasterColor::Rgb8)),
        }
    } else {
        None
    }
}

pub open spec fn opt_bytes(a: Option<Vec<u8>>) -> Option<Seq<u8>> {
    match a {
        Some(v) => Some(v@),
        None => None,
    }
}

/// `r` is the raster buffer of `img` from its pixels `px` and alpha `alpha`.
pub open spec fn raster_result(img: PdImage, px: Seq<u8>, alpha: Option<Seq<u8>>, r: PdfResult<(Vec<u8>, RasterColor)>) -> bool {
    match effective_cs(img) {
        None => unsupported(r,
            "raster export requires explicit DeviceGray/DeviceRGB/Indexed/DeviceCMYK/ICCBased color space"@),
        Some(cs) => match raster_spec(cs, px, alpha) {
            Some((b, c)) => r is Ok && r->Ok_0.0@ == b && r->Ok_0.1 == c,
            None => unsupported(r,
                "raster export supports only DeviceGray/DeviceRGB/Indexed/DeviceCMYK/ICCBased fallback in this phase"@),
        },
    }
}

/// The alpha bytes of a soft mask from its decoded data `dec`: the first
/// `width * height` bytes.
pub open spec fn alpha_result(img: PdImage, dec: Seq<u8>, r: PdfResult<Option<Vec<u8>>>) -> bool {
    let expected = img.width * img.height;
    if dec.len() < expected {
        parse_failure(r, "decoded SMask too short: got "@ + decimal_text(dec.len() as int) + ", expected at least "@
            + decimal_text(expected))
    } else {
        r is Ok && r->Ok_0 is Some && r->Ok_0->Some_0@ == dec.take(expected)
    }
}

/// `r` is the error for mask data its filters could not decode.
pub open spec fn smask_decode_failure<T>(r: PdfResult<T>) -> bool {
    r matches Err(PdfError::Parse { offset: None, context }) && "SMask decode failed: "@.is_prefix_of(context@)
}

/// The alpha bytes `decode_smask_alpha` gives for `img` (`Some(None)` when
/// it has no soft mask); `None` where it gives an error.
pub open spec fn alpha_value(img: PdImage) -> Option<Option<Seq<u8>>> {
    match img.smask {
        None => Some(None),
        Some(m) => if m.bits_per_component != 8 || m.width != img.width || m.height != img.height {
            None
        } else {
            match decode_spec(m.data@, opt_view(m.filter)) {
                Decoded::Out(dec) => if dec.len() < img.width * img.height {
                    None
                } else {
                    Some(Some(dec.take(img.width * img.height)))
                },
                _ => None,
            }
        },
    }
}

/// The mask's size product is computed in 32 bits when it is used.
pub open spec fn smask_size_fits(img: PdImage) -> bool {
    match img.smask {
        Some(m) => (m.bits_per_component == 8 && m.width == img.width && m.height == img.height)
            ==> img.width * img.height <= u32::MAX,
        None => true,
    }
}

impl PdImage {
    /// The JPEG data to write as is: the encoded bytes of a `DCTDecode`
    /// image; an error for other images.
    pub fn jpeg_passthrough(&self) -> (r: PdfResult<&[u8]>)
        ensures
            (exists|k: int| 0 <= k < self.filter_names@.len()
                && (#[trigger] texts(self.filter_names@)[k] == "DCTDecode"@ || texts(self.filter_names@)[k] == "DCT"@))
                ==> r is Ok && r->Ok_0@ == self.data@,
            !(exists|k: int| 0 <= k < self.filter_names@.len()
                && (#[trigger] texts(self.filter_names@)[k] == "DCTDecode"@ || texts(self.filter_names@)[k] == "DCT"@))
                ==> unsupported(r, "JPEG export currently supports only DCTDecode passthrough"@),
    {
        let mut i: usize = 0;
        while i < self.filter_names.len()
            invariant
                i <= self.filter_names@.len(),
                forall|k: int| 0 <= k < i ==> !(#[trigger] texts(self.filter_names@)[k] == "DCTDecode"@
                    || texts(self.filter_names@)[k] == "DCT"@),
            decreases self.filter_names.len() - i,
        {
            let n = self.filter_names[i].as_str();
            if str_eq(n, "DCTDecode") || str_eq(n, "DCT") {
                proof { assert(texts(self.filter_names@)[i as int] == self.filter_names@[i as int]@); }
                return Ok(self.data.as_slice());
            }
            i += 1;
        }
        Err(PdfError::Unsupported { feature: "JPEG export currently supports only DCTDecode passthrough" })
    }

    /// The alpha bytes of the soft mask, if any.
    pub fn decode_smask_alpha(&self) -> (r: PdfResult<Option<Vec<u8>>>)
        requires smask_size_fits(*self),
        ensures
            match self.smask {
                None => r matches Ok(None),
                Some(m) => if m.bits_per_component != 8 {
                    unsupported(r, "SMask export currently supports only 8-bit masks"@)
                } else if m.width != self.width || m.height != self.height {
                    parse_failure(r, "SMask dimensions do not match image dimensions"@)
                } else {
                    match decode_spec(m.data@, opt_view(m.filter)) {
                        Decoded::Out(dec) => alpha_result(*self, dec, r),
                        _ => smask_decode_failure(r),
                    }
                },
            },
            match alpha_value(*self) {
                Some(a) => r is Ok && opt_bytes(r->Ok_0) == a,
                None => r is Err,
            },
    {
        let mask = match &self.smask {
            Some(m) => m,
            None => return Ok(None),
        };
        if mask.bits_per_component != 8 {
            return Err(PdfError::Unsupported { feature: "SMask export currently supports only 8-bit masks" });
        }
        if mask.width != self.width || mask.height != self.height {
            let mut m = String::new();
            push_str(&mut m, "SMask dimensions do not match image dimensions");
            proof { assert(m@ =~= "SMask dimensions do not match image dimensions"@); }
            return Err(PdfError::Parse { offset: None, context: m });
        }
        let filter: Option<&CosObject> = match &mask.filter {
            Some(f) => Some(f),
            None => None,
        };
        let decoded = match crate::io::decode_stream(mask.data.as_slice(), filter) {
            Ok(d) => d,
            Err(e) => {
                let mut m = String::new();
                push_str(&mut m, "SMask decode failed: ");
                let t = e.to_text();
                push_str(&mut m, t.as_str());
                proof {
                    assert(m@ =~= "SMask decode failed: "@ + t@);
                    assert(m@.subrange(0, "SMask decode failed: "@.len() as int) =~= "SMask decode failed: "@);
                }
                return Err(PdfError::Parse { offset: None, context: m });
            }
        };
        let expected = (self.width * self.height) as usize;
        let ghost dec = decoded@;
        let r = if decoded.len() < expected {
            let mut m = String::new();
            push_str(&mut m, "decoded SMask too short: got ");
            push_digits(&mut m, decoded.len() as u64);
            push_str(&mut m, ", expected at least ");
            push_digits(&mut m, expected as u64);
            proof {
                assert(m@ =~= "decoded SMask too short: got "@ + decimal_text(decoded@.len() as int) + ", expected at least "@
                    + decimal_text(self.width * self.height));
            }
            Err(PdfError::Parse { offset: None, context: m })
        } else {
            Ok(Some(crate::bytes::copy_range(decoded.as_slice(), 0, expected)))
        };
        proof {
            assert(expected as int == self.width * self.height);
            assert(alpha_result(*self, dec, r));
        }
        r
    }

    /// `true` when the sizes decoding and export compute fit in machine
    /// integers (see `decode_sizes_fit` and `smask_size_fits`).
    pub fn export_sizes_fit(&self) -> (r: bool)
        ensures r == ((self.bits_per_component == 8 ==> decode_sizes_fit(*self)) && smask_size_fits(*self)),
    {
        let cs = self.effective_color_space();
        let channels: u128 = match &cs {
            Some(c) => if str_eq(c.as_str(), "DeviceGray") {
                1
            } else if str_eq(c.as_str(), "DeviceRGB") {
                3
            } else if str_eq(c.as_str(), "DeviceCMYK") {
                4
            } else if str_eq(c.as_str(), "Indexed") {
                1
            } else {
                0
            },
            None => 0,
        };
        let w = self.width as u128;
        let h = self.height as u128;
        proof {
            assert(w * h <= 0xffff_ffff * 0xffff_ffff) by (nonlinear_arith) requires w <= 0xffff_ffff, h <= 0xffff_ffff;
            assert(w * h * channels <= 0xffff_ffff * 0xffff_ffff * 4) by (nonlinear_arith)
                requires w * h <= 0xffff_ffff * 0xffff_ffff, channels <= 4;
        }
        let pixels_fit = w * h * channels <= usize::MAX as u128;
        let palette_fit = match &self.color_space_obj {
            Some(CosObject::Array(a)) => {
                proof { crate::cos::lemma_view_objs(a@); }
                if a.len() >= 4 {
                    match &a[2] {
                        CosObject::Integer(hv) => if *hv >= 0 {
                            ((*hv as u128) + 1) * 3 <= usize::MAX as u128
                        } else {
                            true
                        },
                        _ => true,
                    }
                } else {
                    true
                }
            }
            _ => true,
        };
        let mask_fit = match &self.smask {
            Some(m) => if m.bits_per_component == 8 && m.width == self.width && m.height == self.height {
                (self.width as u64) * (self.height as u64) <= u32::MAX as u64
            } else {
                true
            },
            None => true,
        };
        (self.bits_per_component != 8 || (pixels_fit && palette_fit)) && mask_fit
    }

    /// The raster buffer for pixels `pixels` and alpha `alpha` of this
    /// image (see `raster_result`).
    pub fn raster_buffer(&self, pixels: Vec<u8>, alpha: Option<Vec<u8>>) -> (r: PdfResult<(Vec<u8>, RasterColor)>)
        ensures raster_result(*self, pixels@, opt_bytes(alpha), r),
    {
        let cs = match self.effective_color_space() {
            Some(c) => c,
            None => return Err(PdfError::Unsupported {
                feature: "raster export requires explicit DeviceGray/DeviceRGB/Indexed/DeviceCMYK/ICCBased color space",
            }),
        };
        let c = cs.as_str();
        if str_eq(c, "DeviceGray") {
            match alpha {
                Some(a) => Ok((interleave_luma_alpha(pixels.as_slice(), a.as_slice()), RasterColor::La8)),
                None => Ok((pixels, RasterColor::L8)),
            }
        } else if str_eq(c, "DeviceRGB") || str_eq(c, "Indexed") {
            match alpha {
                Some(a) => Ok((interleave_rgb_alpha(pixels.as_slice(), a.as_slice()), RasterColor::Rgba8)),
                None => Ok((pixels, RasterColor::Rgb8)),
            }
        } else if str_eq(c, "DeviceCMYK") {
            let rgb = cmyk_to_rgb8_for_png(pixels.as_slice());
            match alpha {
                Some(a) => Ok((interleave_rgb_alpha(rgb.as_slice(), a.as_slice()), RasterColor::Rgba8)),
                None => Ok((rgb, RasterColor::Rgb8)),
            }
        } else {
            Err(PdfError::Unsupported {
                feature: "raster export supports only DeviceGray/DeviceRGB/Indexed/DeviceCMYK/ICCBased fallback in this phase",
            })
        }
    }

    /// The raster buffer to write: the decoded pixels (`pixels_value`), with
    /// the soft mask as alpha (`alpha_value`), in a layout an image file can
    /// hold; the first error of the steps otherwise.
    pub fn prepare_raster_export_buffer(&self) -> (r: PdfResult<(Vec<u8>, RasterColor)>)
        requires
            self.bits_per_component == 8 ==> decode_sizes_fit(*self),
            smask_size_fits(*self),
        ensures
            self.bits_per_component != 8 ==> unsupported(r, "image decode supports only 8 bits/component in this phase"@),
            match (pixels_value(*self), alpha_value(*self)) {
                (Some(px), Some(alpha)) => raster_result(*self, px, alpha, r),
                _ => r is Err,
            },
    {
        let pixels = match self.decode_pixels() {
            Ok(p) => p,
            Err(e) => return Err(e),
        };
        let alpha = match self.decode_smask_alpha() {
            Ok(a) => a,
            Err(e) => return Err(e),
        };
        self.raster_buffer(pixels, alpha)
    }
}

} // verus!

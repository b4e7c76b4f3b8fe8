//! Colour conversion of pixels described by an embedded ICC profile to
//! sRGB with alpha, through Little CMS.

use vstd::prelude::*;

verus! {

/// The pixel layout of the bytes handed to Little CMS.
#[derive(Debug, Clone, Copy, PartialEq, Eq, Structural)]
pub enum IccInput {
    Gray,
    Rgb,
    Cmyk,
    Rgba,
}

/// The layout for `components` channels: gray, RGB and CMYK for 1, 3 and
/// 4; RGBA for anything else.
pub open spec fn icc_layout(components: usize) -> IccInput {
    if components == 1 {
        IccInput::Gray
    } else if components == 3 {
        IccInput::Rgb
    } else if components == 4 {
        IccInput::Cmyk
    } else {
        IccInput::Rgba
    }
}

/// The bytes per pixel of a layout.
pub open spec fn layout_bpp(l: IccInput) -> nat {
    match l {
        IccInput::Gray => 1,
        IccInput::Rgb => 3,
        IccInput::Cmyk => 4,
        IccInput::Rgba => 4,
    }
}

/// The bytes per pixel Little CMS reads for `components` channels.
pub open spec fn icc_bpp(components: usize) -> nat {
    layout_bpp(icc_layout(components))
}

/// The layout for `components` channels (see `icc_layout`).
fn layout_of(components: usize) -> (r: IccInput)
    ensures r == icc_layout(components),
{
    if components == 1 {
        IccInput::Gray
    } else if components == 3 {
        IccInput::Rgb
    } else if components == 4 {
        IccInput::Cmyk
    } else {
        IccInput::Rgba
    }
}

/// The pixel bytes handed to the transform: the first `w * h * components`
/// bytes, or all of them when there are fewer.
pub open spec fn icc_input(raw: Seq<u8>, width: u32, height: u32, components: usize) -> Seq<u8> {
    if raw.len() >= width * height * components { raw.take(width * height * components) } else { raw }
}

/// What Little CMS makes of `pixels` (laid out as `layout`, in the colour
/// space of the ICC profile `profile`) converted to sRGB with alpha, in an
/// output buffer of `out_len` zero bytes; `None` when the profile or the
/// transform cannot be made.
pub uninterp spec fn icc_to_srgb(profile: Seq<u8>, layout: IccInput, pixels: Seq<u8>, out_len: nat) -> Option<Seq<u8>>;

/// Calls `lcms2::Profile::new_icc` on `profile`, builds with
/// `lcms2::Transform::new` a perceptual transform from it (input bytes laid
/// out as `layout`: `GRAY_8`, `RGB_8`, `CMYK_8` or `RGBA_8`) to sRGB
/// `RGBA_8`, and runs `transform_pixels` from `pixels` into `out_len` zero
/// bytes. Claimed: the result is `icc_to_srgb` of these arguments, and a
/// buffer keeps its length. The call panics on input whose length is not a
/// whole number of pixels, which `requires` leaves out.
#[verifier::external_body]
fn icc_transform(profile: &[u8], layout: IccInput, pixels: &[u8], out_len: usize) -> (r: Option<Vec<u8>>)
    requires
        out_len % 4 == 0,
        pixels@.len() % layout_bpp(layout) == 0,
    ensures
        match r {
            Some(v) => icc_to_srgb(profile@, layout, pixels@, out_len as nat) == Some(v@) && v@.len() == out_len,
            None => icc_to_srgb(profile@, layout, pixels@, out_len as nat) is None,
        },
{
    let source = lcms2::Profile::new_icc(profile).ok()?;
    let fmt = match layout {
        IccInput::Gray => lcms2::PixelFormat::GRAY_8,
        IccInput::Rgb => lcms2::PixelFormat::RGB_8,
        IccInput::Cmyk => lcms2::PixelFormat::CMYK_8,
        IccInput::Rgba => lcms2::PixelFormat::RGBA_8,
    };
    let srgb = lcms2::Profile::new_srgb();
    let t: lcms2::Transform<u8, u8> =
        lcms2::Transform::new(&source, fmt, &srgb, lcms2::PixelFormat::RGBA_8, lcms2::Intent::Perceptual).ok()?;
    let mut out = vec![0u8; out_len];
    t.transform_pixels(pixels, &mut out);
    Some(out)
}

/// An RGBA image: `width * height` pixels of four bytes, row by row.
pub struct RgbaPixels {
    pub width: u32,
    pub height: u32,
    pub pixels: Vec<u8>,
}

/// `n` zero bytes.
fn zeros(n: usize) -> (r: Vec<u8>)
    ensures r@ == Seq::new(n as nat, |i: int| 0u8),
{
    let mut v: Vec<u8> = Vec::new();
    let mut i: usize = 0;
    while i < n
        invariant i <= n, v@ == Seq::new(i as nat, |k: int| 0u8),
        decreases n - i,
    {
        v.push(0u8);
        proof { assert(v@ =~= Seq::new((i + 1) as nat, |k: int| 0u8)); }
        i += 1;
    }
    v
}

/// Converts `width * height` pixels in the colour space of the embedded ICC
/// profile `icc_profile_data` (`components` bytes each; fewer bytes are
/// converted as far as they go) to sRGB with alpha: the pixels are what
/// the transform gives (see `icc_to_srgb`), all zero when the profile or
/// the transform cannot be made.
pub fn apply_icc_profile(raw_pixels: &[u8], icc_profile_data: &[u8], width: u32, height: u32, components: usize) -> (r: RgbaPixels)
    requires
        width * height * 4 <= u32::MAX,
        width * height * components <= usize::MAX,
        icc_input(raw_pixels@, width, height, components).len() % icc_bpp(components) == 0,
    ensures
        r.width == width,
        r.height == height,
        r.pixels@ == match icc_to_srgb(icc_profile_data@, icc_layout(components),
            icc_input(raw_pixels@, width, height, components), (width * height * 4) as nat) {
            Some(b) => b,
            None => Seq::new((width * height * 4) as nat, |i: int| 0u8),
        },
{
    assert(width * height * 4 <= u32::MAX);
    let wh: u32 = width * height;
    let n: usize = (wh * 4) as usize;
    assert(wh as int * components as int == width * height * components);
    let expected: usize = (wh as usize) * components;
    let input: &[u8] = if raw_pixels.len() >= expected { slice_prefix(raw_pixels, expected) } else { raw_pixels };
    match icc_transform(icc_profile_data, layout_of(components), input, n) {
        Some(buf) => RgbaPixels { width, height, pixels: buf },
        None => RgbaPixels { width, height, pixels: zeros(n) },
    }
}

/// The first `n` bytes of `s`.
fn slice_prefix(s: &[u8], n: usize) -> (r: &[u8])
    requires n <= s@.len(),
    ensures r@ == s@.take(n as int),
{
    let r = vstd::slice::slice_subrange(s, 0, n);
    proof { assert(r@ =~= s@.take(n as int)); }
    r
}

} // verus!

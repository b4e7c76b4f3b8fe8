//! Stream filter decoding (PDF 32000 §7.4).
//!
//! | Filter | Status |
//! |---|---|
//! | `FlateDecode` (zlib/deflate) | decoded |
//! | `ASCIIHexDecode` | decoded |
//! | `ASCII85Decode` | decoded |
//! | `RunLengthDecode` | decoded |
//! | `LZWDecode` | decoded |
//! | `CCITTFaxDecode` / `DCTDecode` / `JPXDecode` / `Crypt` | passed through |
//!
//! What each decoder yields is stated by spec functions over byte sequences
//! ([`filter_step`], [`decode_spec`]; for deflate, `inflate::inflate_spec`).

pub mod inflate;
pub mod lzw;

use vstd::prelude::*;
use crate::bytes::{lit, eq_str, clone_bytes};
use crate::cos::{CosObject, CosValue, view_objs, lemma_view_objs};
use crate::text::{digits_text, utf8_lossy};
use crate::parser::lexer::{is_hex, hex_val, hex_byte, hex_byte_text, hex_digit};
use vstd::arithmetic::div_mod::{lemma_div_denominator, lemma_div_pos_is_pos, lemma_fundamental_div_mod,
    lemma_fundamental_div_mod_converse, lemma_mod_pos_bound};
use lzw::{LzwOut, LzwRun, lzw_spec, lzw_run};

verus! {

broadcast use lemma_view_objs;

/// Error of a stream filter.
#[derive(Debug, Clone, PartialEq, Eq)]
pub enum FilterError {
    /// The `/Filter` names a filter this library does not know.
    UnknownFilter(String),
    /// The encoded data is malformed.
    DecodeFailed(String),
}

impl FilterError {
    /// The error's message.
    pub fn to_text(&self) -> (r: String)
        ensures
            r@ == match self {
                FilterError::UnknownFilter(n) => "unknown PDF stream filter: "@ + n@,
                FilterError::DecodeFailed(m) => "stream decode failed: "@ + m@,
            },
    {
        let mut s = String::new();
        match self {
            FilterError::UnknownFilter(n) => {
                crate::text::push_str(&mut s, "unknown PDF stream filter: ");
                crate::text::push_str(&mut s, n.as_str());
            }
            FilterError::DecodeFailed(m) => {
                crate::text::push_str(&mut s, "stream decode failed: ");
                crate::text::push_str(&mut s, m.as_str());
            }
        }
        s
    }
}

/// The decoder a filter name selects.
pub enum FilterKind {
    Flate,
    AsciiHex,
    Ascii85,
    RunLength,
    Lzw,
    PassThrough,
    Unknown,
}

/// Which decoder a filter name (full or abbreviated) selects.
pub open spec fn filter_kind(name: Seq<u8>) -> FilterKind {
    if name == lit("FlateDecode") || name == lit("Fl") {
        FilterKind::Flate
    } else if name == lit("ASCIIHexDecode") || name == lit("AHx") {
        FilterKind::AsciiHex
    } else if name == lit("ASCII85Decode") || name == lit("A85") {
        FilterKind::Ascii85
    } else if name == lit("RunLengthDecode") || name == lit("RL") {
        FilterKind::RunLength
    } else if name == lit("LZWDecode") || name == lit("LZW") {
        FilterKind::Lzw
    } else if name == lit("CCITTFaxDecode") || name == lit("CCF") || name == lit("DCTDecode")
        || name == lit("DCT") || name == lit("JPXDecode") || name == lit("Crypt") {
        FilterKind::PassThrough
    } else {
        FilterKind::Unknown
    }
}

/// Outcome of a decoding step, as the spec functions describe it.
pub enum Decoded {
    /// Decoded bytes.
    Out(Seq<u8>),
    /// The data is malformed: `FilterError::DecodeFailed` with this message.
    Failed(Seq<char>),
    /// The deflate body does not inflate: `FilterError::DecodeFailed` with
    /// the inflater's message.
    InflateFailed,
    /// The filter, with this name, is unknown (`FilterError::UnknownFilter`).
    Unknown(Seq<u8>),
    /// The data would make the decoder index out of range or overflow:
    /// `FilterError::DecodeFailed` with this message.
    Aborted(Seq<char>),
}

// ---------------------------------------------------------------------------
// ASCIIHexDecode
// ---------------------------------------------------------------------------

pub open spec fn is_ahx_space(b: u8) -> bool {
    b == 0x20 || b == 0x09 || b == 0x0d || b == 0x0a
}

/// Appends a pending high nibble, padded with a zero low nibble.
pub open spec fn ahx_flush(out: Seq<u8>, nib: Option<u8>) -> Seq<u8> {
    match nib {
        Some(hi) => out.push((hi * 16) as u8),
        None => out,
    }
}

/// ASCIIHex decoding of `data[i..]`, with `out` decoded so far and `nib` a
/// pending high nibble. Decoding stops at `>`; white space is skipped.
pub open spec fn ahx_from(data: Seq<u8>, i: int, out: Seq<u8>, nib: Option<u8>) -> Decoded
    decreases data.len() - i,
{
    if i < 0 || i >= data.len() {
        Decoded::Out(ahx_flush(out, nib))
    } else {
        let b = data[i];
        if b == 0x3e {
            Decoded::Out(ahx_flush(out, nib))
        } else if is_ahx_space(b) {
            ahx_from(data, i + 1, out, nib)
        } else if is_hex(b) {
            match nib {
                Some(hi) => ahx_from(data, i + 1, out.push((hi * 16 + hex_val(b)) as u8), None),
                None => ahx_from(data, i + 1, out, Some(hex_val(b))),
            }
        } else {
            Decoded::Failed("invalid AHx byte 0x"@ + hex_byte_text(b))
        }
    }
}

// ---------------------------------------------------------------------------
// ASCII85Decode
// ---------------------------------------------------------------------------

/// The base-85 value of a five-digit group.
pub open spec fn a85_value(g: Seq<u8>) -> int {
    g[0] * 52200625 + g[1] * 614125 + g[2] * 7225 + g[3] * 85 + g[4]
}

/// The four big-endian bytes of `v`.
pub open spec fn be4(v: int) -> Seq<u8> {
    seq![(v / 16777216 % 256) as u8, (v / 65536 % 256) as u8, (v / 256 % 256) as u8, (v % 256) as u8]
}

/// Completes a partial group of `n` digits with `u` and keeps `n - 1` bytes.
pub open spec fn a85_tail(out: Seq<u8>, grp: Seq<u8>) -> Decoded {
    if grp.len() == 0 {
        Decoded::Out(out)
    } else {
        let full = grp + Seq::new((5 - grp.len()) as nat, |k: int| 84u8);
        if a85_value(full) >= 0x1_0000_0000 {
            Decoded::Aborted(a85_range_msg())
        } else {
            Decoded::Out(out + be4(a85_value(full)).subrange(0, grp.len() - 1))
        }
    }
}

/// ASCII85 decoding of `data[i..]`, with `out` decoded so far and `grp` the
/// digits of the current group (as values `0..=84`).
pub open spec fn a85_from(data: Seq<u8>, i: int, out: Seq<u8>, grp: Seq<u8>) -> Decoded
    decreases data.len() - i,
{
    if i < 0 || i >= data.len() {
        a85_tail(out, grp)
    } else {
        let b = data[i];
        if b == 0x7a && grp.len() == 0 {
            a85_from(data, i + 1, out + seq![0u8, 0u8, 0u8, 0u8], grp)
        } else if b == 0x7e {
            if i + 1 < data.len() && data[i + 1] == 0x3e {
                a85_tail(out, grp)
            } else {
                a85_from(data, i + 1, out, grp)
            }
        } else if is_ahx_space(b) {
            a85_from(data, i + 1, out, grp)
        } else if 0x21 <= b <= 0x75 {
            let g = grp.push((b - 0x21) as u8);
            if g.len() == 5 {
                if a85_value(g) >= 0x1_0000_0000 {
                    Decoded::Aborted(a85_range_msg())
                } else {
                    a85_from(data, i + 1, out + be4(a85_value(g)), Seq::empty())
                }
            } else {
                a85_from(data, i + 1, out, g)
            }
        } else {
            Decoded::Failed("invalid A85 byte 0x"@ + hex_byte_text(b))
        }
    }
}

// ---------------------------------------------------------------------------
// RunLengthDecode
// ---------------------------------------------------------------------------

/// Run-length decoding of `data[i..]` with `out` decoded so far.
pub open spec fn rl_from(data: Seq<u8>, i: int, out: Seq<u8>) -> Decoded
    decreases data.len() - i,
{
    if i < 0 || i >= data.len() {
        Decoded::Out(out)
    } else {
        let b = data[i];
        if b == 128 {
            Decoded::Out(out)
        } else if b < 128 {
            let n = b + 1;
            if i + 1 + n > data.len() {
                Decoded::Failed("truncated RL literal"@)
            } else {
                rl_from(data, i + 1 + n, out + data.subrange(i + 1, i + 1 + n))
            }
        } else {
            if i + 1 >= data.len() {
                Decoded::Failed("truncated RL repeat"@)
            } else {
                rl_from(data, i + 2, out + Seq::new((257 - b) as nat, |k: int| data[i + 1]))
            }
        }
    }
}

// ---------------------------------------------------------------------------
// FlateDecode: zlib header
// ---------------------------------------------------------------------------

/// Where the deflate body of a zlib stream starts: after the two header
/// bytes, and after a preset-dictionary id when `FDICT` is set.
pub open spec fn zlib_body_start(data: Seq<u8>) -> int {
    if data[1] & 0x20 != 0 { 6 } else { 2 }
}

/// Where the deflate body ends: before the four Adler-32 bytes.
pub open spec fn zlib_body_end(data: Seq<u8>) -> int {
    if data.len() >= 4 { data.len() - 4 } else { 0 }
}

/// The zlib header check: too short, another compression method, or a bad
/// header checksum fail; a body that would start after its end aborts.
/// Otherwise the deflate body is inflated (see `inflate_spec`).
pub open spec fn zlib_header(data: Seq<u8>) -> Decoded {
    if data.len() < 2 {
        Decoded::Failed("too short for zlib header"@)
    } else if data[0] & 0x0f != 8 {
        Decoded::Failed("unsupported zlib CM="@ + digits_text((data[0] & 0x0f) as nat))
    } else if (data[0] * 256 + data[1]) % 31 != 0 {
        Decoded::Failed("zlib header checksum failed"@)
    } else if zlib_body_start(data) > zlib_body_end(data) {
        Decoded::Aborted("zlib body range is empty"@)
    } else {
        let body = data.subrange(zlib_body_start(data), zlib_body_end(data));
        match inflate::inflate_spec(inflate::le_value(body), (body.len() * 8) as int, Seq::empty()) {
            Some(o) => Decoded::Out(o),
            None => Decoded::InflateFailed,
        }
    }
}

// ---------------------------------------------------------------------------
// Filter chains
// ---------------------------------------------------------------------------

/// One filter named `name` applied to `data`.
#[verifier::opaque]
pub open spec fn filter_step(name: Seq<u8>, data: Seq<u8>) -> Decoded {
    match filter_kind(name) {
        FilterKind::Flate => zlib_header(data),
        FilterKind::AsciiHex => ahx_from(data, 0, Seq::empty(), None),
        FilterKind::Ascii85 => a85_from(data, 0, Seq::empty(), Seq::empty()),
        FilterKind::RunLength => rl_from(data, 0, Seq::empty()),
        FilterKind::Lzw => match lzw_spec(data) {
            LzwOut::Done(o) => Decoded::Out(o),
            LzwOut::Failed(m) => Decoded::Failed("LZW: "@ + m),
            LzwOut::Aborted => Decoded::Aborted("LZW code outside the table"@),
        },
        FilterKind::PassThrough => Decoded::Out(data),
        FilterKind::Unknown => Decoded::Unknown(name),
    }
}

/// The filters of an array applied left to right from index `i`; entries
/// that are not names are skipped.
pub open spec fn chain_from(filters: Seq<CosValue>, i: int, cur: Seq<u8>) -> Decoded
    decreases filters.len() - i,
{
    if i < 0 || i >= filters.len() {
        Decoded::Out(cur)
    } else {
        match filters[i] {
            CosValue::Name(n) => match filter_step(n, cur) {
                Decoded::Out(o) => chain_from(filters, i + 1, o),
                other => other,
            },
            _ => chain_from(filters, i + 1, cur),
        }
    }
}

/// Decoding `data` under a `/Filter` value: none, a name, or an array.
pub open spec fn decode_spec(data: Seq<u8>, filter: Option<CosValue>) -> Decoded {
    match filter {
        None => Decoded::Out(data),
        Some(CosValue::Name(n)) => filter_step(n, data),
        Some(CosValue::Array(fs)) => chain_from(fs, 0, data),
        Some(_) => Decoded::Out(data),
    }
}

proof fn lemma_chain_name(fs: Seq<CosValue>, i: int, cur: Seq<u8>, n: Seq<u8>)
    requires 0 <= i < fs.len(), fs[i] == CosValue::Name(n),
    ensures chain_from(fs, i, cur) == (match filter_step(n, cur) {
        Decoded::Out(o) => chain_from(fs, i + 1, o),
        other => other,
    }),
{
}

proof fn lemma_chain_other(fs: Seq<CosValue>, i: int, cur: Seq<u8>)
    requires 0 <= i < fs.len(), !(fs[i] is Name),
    ensures chain_from(fs, i, cur) == chain_from(fs, i + 1, cur),
{
}

/// Filters in an array apply left to right: decoding with `[f1 f2]` is
/// decoding with `f1` and then, when that succeeds, decoding its output
/// with `f2`; the first failure is the result.
pub proof fn lemma_filter_chain_two(data: Seq<u8>, f1: Seq<u8>, f2: Seq<u8>)
    ensures
        decode_spec(data, Some(CosValue::Array(seq![CosValue::Name(f1), CosValue::Name(f2)])))
            == match decode_spec(data, Some(CosValue::Name(f1))) {
                Decoded::Out(o) => decode_spec(o, Some(CosValue::Name(f2))),
                other => other,
            },
{
    let fs = seq![CosValue::Name(f1), CosValue::Name(f2)];
    lemma_chain_name(fs, 0, data, f1);
    match filter_step(f1, data) {
        Decoded::Out(o) => {
            lemma_chain_name(fs, 1, o, f2);
            match filter_step(f2, o) {
                Decoded::Out(o2) => assert(chain_from(fs, 2, o2) == Decoded::Out(o2)),
                _ => {}
            }
        }
        _ => {}
    }
}

/// How a result matches a described outcome.
pub open spec fn result_matches(r: Result<Vec<u8>, FilterError>, d: Decoded) -> bool {
    match d {
        Decoded::Out(o) => r is Ok && r->Ok_0@ == o,
        Decoded::Failed(m) => r matches Err(FilterError::DecodeFailed(e)) && e@ == m,
        Decoded::InflateFailed => r is Err && r->Err_0 is DecodeFailed,
        Decoded::Unknown(n) => r matches Err(FilterError::UnknownFilter(s)) && s@ == utf8_lossy(n),
        Decoded::Aborted(m) => r matches Err(FilterError::DecodeFailed(e)) && e@ == m,
    }
}

// ---------------------------------------------------------------------------
// Executable decoders
// ---------------------------------------------------------------------------

/// Selects the decoder for a filter name.
pub fn kind_of(name: &[u8]) -> (r: FilterKind)
    ensures r == filter_kind(name@),
{
    if eq_str(name, "FlateDecode") || eq_str(name, "Fl") {
        FilterKind::Flate
    } else if eq_str(name, "ASCIIHexDecode") || eq_str(name, "AHx") {
        FilterKind::AsciiHex
    } else if eq_str(name, "ASCII85Decode") || eq_str(name, "A85") {
        FilterKind::Ascii85
    } else if eq_str(name, "RunLengthDecode") || eq_str(name, "RL") {
        FilterKind::RunLength
    } else if eq_str(name, "LZWDecode") || eq_str(name, "LZW") {
        FilterKind::Lzw
    } else if eq_str(name, "CCITTFaxDecode") || eq_str(name, "CCF") || eq_str(name, "DCTDecode")
        || eq_str(name, "DCT") || eq_str(name, "JPXDecode") || eq_str(name, "Crypt") {
        FilterKind::PassThrough
    } else {
        FilterKind::Unknown
    }
}

fn failed(msg: &str) -> (r: FilterError)
    ensures r matches FilterError::DecodeFailed(e) && e@ == msg@,
{
    FilterError::DecodeFailed(crate::text::owned_text(msg))
}

/// The message for an ASCII85 group above 32 bits.
pub open spec fn a85_range_msg() -> Seq<char> {
    "ASCII85 group value out of range"@
}

/// `prefix` and the byte `b` as `0x` and two upper-case hex digits.
fn byte_message(prefix: &str, b: u8) -> (r: FilterError)
    ensures r matches FilterError::DecodeFailed(e) && e@ == prefix@ + hex_byte_text(b),
{
    let mut m = crate::text::owned_text(prefix);
    crate::parser::lexer::push_hex_byte(&mut m, b);
    FilterError::DecodeFailed(m)
}

/// Decodes ASCIIHex data.
pub fn ascii_hex_decode(data: &[u8]) -> (r: Result<Vec<u8>, FilterError>)
    ensures result_matches(r, ahx_from(data@, 0, Seq::empty(), None)),
        !(r is Err && r->Err_0 is UnknownFilter),
{
    let mut out: Vec<u8> = Vec::new();
    let mut has_nib = false;
    let mut nib: u8 = 0;
    let mut i: usize = 0;
    let mut stop = false;
    while i < data.len() && !stop
        invariant
            i <= data@.len(),
            nib < 16,
            ahx_from(data@, i as int, out@, if has_nib { Some(nib) } else { None })
                == ahx_from(data@, 0, Seq::empty(), None),
            stop ==> i < data@.len() && data@[i as int] == 0x3e,
        decreases data.len() - i, if stop { 0int } else { 1int },
    {
        let b = data[i];
        if b == 0x3e {
            stop = true;
        } else if b == 0x20 || b == 0x09 || b == 0x0d || b == 0x0a {
            i += 1;
        } else {
            if !hex_byte(b) {
                return Err(byte_message("invalid AHx byte 0x", b));
            }
            let v = hex_digit(b);
            if has_nib {
                out.push(nib * 16 + v);
                has_nib = false;
            } else {
                nib = v;
                has_nib = true;
            }
            i += 1;
        }
    }
    if has_nib {
        out.push(nib * 16);
    }
    Ok(out)
}

/// The four big-endian bytes of a group value.
fn push_be4(out: &mut Vec<u8>, v: u64, keep: usize)
    requires v < 0x1_0000_0000, keep <= 4,
    ensures final(out)@ == old(out)@ + be4(v as int).subrange(0, keep as int),
{
    let bytes: [u8; 4] = [(v / 16777216 % 256) as u8, (v / 65536 % 256) as u8, (v / 256 % 256) as u8, (v % 256) as u8];
    let ghost start = out@;
    let mut k: usize = 0;
    while k < keep
        invariant
            k <= keep <= 4,
            bytes@ == be4(v as int),
            out@ == start + be4(v as int).subrange(0, k as int),
        decreases keep - k,
    {
        out.push(bytes[k]);
        proof {
            assert(be4(v as int).subrange(0, k + 1) =~= be4(v as int).subrange(0, k as int).push(bytes@[k as int]));
        }
        k += 1;
    }
}

fn a85_group_value(g: &Vec<u8>) -> (r: u64)
    requires g@.len() == 5, forall|k: int| 0 <= k < 5 ==> g@[k] <= 84,
    ensures r == a85_value(g@),
{
    g[0] as u64 * 52200625 + g[1] as u64 * 614125 + g[2] as u64 * 7225 + g[3] as u64 * 85 + g[4] as u64
}

/// Decodes ASCII85 data.
pub fn ascii85_decode(data: &[u8]) -> (r: Result<Vec<u8>, FilterError>)
    ensures result_matches(r, a85_from(data@, 0, Seq::empty(), Seq::empty())),
        !(r is Err && r->Err_0 is UnknownFilter),
{
    let mut out: Vec<u8> = Vec::new();
    let mut group: Vec<u8> = Vec::new();
    let mut i: usize = 0;
    let mut at_end = false;
    while i < data.len() && !at_end
        invariant
            i <= data@.len(),
            group@.len() < 5,
            forall|k: int| 0 <= k < group@.len() ==> group@[k] <= 84,
            !at_end ==> a85_from(data@, i as int, out@, group@) == a85_from(data@, 0, Seq::empty(), Seq::empty()),
            at_end ==> a85_tail(out@, group@) == a85_from(data@, 0, Seq::empty(), Seq::empty()),
        decreases data.len() - i,
    {
        let b = data[i];
        i += 1;
        if b == 0x7a && group.len() == 0 {
            let ghost o = out@;
            out.push(0);
            out.push(0);
            out.push(0);
            out.push(0);
            proof { assert(out@ =~= o + seq![0u8, 0u8, 0u8, 0u8]); }
        } else if b == 0x7e {
            if i < data.len() && data[i] == 0x3e {
                at_end = true;
            }
        } else if b == 0x20 || b == 0x09 || b == 0x0d || b == 0x0a {
        } else if 0x21 <= b && b <= 0x75 {
            let ghost g0 = group@;
            group.push(b - 0x21);
            assert(group@ == g0.push((b - 0x21) as u8));
            if group.len() == 5 {
                let v = a85_group_value(&group);
                if v >= 0x1_0000_0000 {
                    return Err(failed("ASCII85 group value out of range"));
                }
                push_be4(&mut out, v, 4);
                proof { assert(be4(v as int).subrange(0, 4) =~= be4(v as int)); }
                group = Vec::new();
                proof { assert(group@ =~= Seq::<u8>::empty()); }
            }
        } else {
            return Err(byte_message("invalid A85 byte 0x", b));
        }
    }
    if group.len() > 0 {
        let n = group.len();
        let ghost g0 = group@;
        while group.len() < 5
            invariant
                1 <= n < 5,
                n <= group@.len() <= 5,
                group@ == g0 + Seq::new((group@.len() - n) as nat, |k: int| 84u8),
                g0.len() == n,
                forall|k: int| 0 <= k < group@.len() ==> group@[k] <= 84,
            decreases 5 - group.len(),
        {
            let ghost before = group@;
            group.push(84);
            proof {
                assert(group@ =~= g0 + Seq::new((group@.len() - n) as nat, |k: int| 84u8));
            }
        }
        proof {
            assert(group@ =~= g0 + Seq::new((5 - g0.len()) as nat, |k: int| 84u8));
        }
        let v = a85_group_value(&group);
        if v >= 0x1_0000_0000 {
            return Err(failed("ASCII85 group value out of range"));
        }
        push_be4(&mut out, v, n - 1);
    }
    Ok(out)
}

/// Decodes run-length data.
pub fn run_length_decode(data: &[u8]) -> (r: Result<Vec<u8>, FilterError>)
    ensures result_matches(r, rl_from(data@, 0, Seq::empty())),
        !(r is Err && r->Err_0 is UnknownFilter),
{
    let mut out: Vec<u8> = Vec::new();
    let mut i: usize = 0;
    let mut stop = false;
    while i < data.len() && !stop
        invariant
            i <= data@.len(),
            rl_from(data@, i as int, out@) == rl_from(data@, 0, Seq::empty()),
            stop ==> i < data@.len() && data@[i as int] == 128,
        decreases data.len() - i, if stop { 0int } else { 1int },
    {
        let b = data[i];
        if b == 128 {
            stop = true;
        } else if b < 128 {
            let n = b as usize + 1;
            if n > data.len() - (i + 1) {
                return Err(failed("truncated RL literal"));
            }
            let ghost o = out@;
            let s = i + 1;
            let mut k: usize = 0;
            while k < n
                invariant
                    k <= n,
                    s == i + 1,
                    s + n <= data.len(),
                    out@ == o + data@.subrange(i + 1, i + 1 + k),
                decreases n - k,
            {
                out.push(data[s + k]);
                proof { assert(out@ =~= o + data@.subrange(i + 1, i + 1 + k + 1)); }
                k += 1;
            }
            i = i + 1 + n;
        } else {
            let n = 257 - b as usize;
            if i + 1 >= data.len() {
                return Err(failed("truncated RL repeat"));
            }
            let byte = data[i + 1];
            let ghost o = out@;
            let mut k: usize = 0;
            while k < n
                invariant
                    k <= n,
                    out@ == o + Seq::new(k as nat, |j: int| byte),
                decreases n - k,
            {
                out.push(byte);
                proof { assert(out@ =~= o + Seq::new((k + 1) as nat, |j: int| byte)); }
                k += 1;
            }
            proof { assert(Seq::new(n as nat, |j: int| byte) =~= Seq::new((257 - b) as nat, |j: int| data@[i + 1])); }
            i = i + 2;
        }
    }
    Ok(out)
}

/// Decodes a zlib stream: checks the two-byte header and inflates the
/// deflate body between the header and the Adler-32 trailer.
pub fn flate_decode(data: &[u8]) -> (r: Result<Vec<u8>, FilterError>)
    ensures
        result_matches(r, zlib_header(data@)),
        !(r is Err && r->Err_0 is UnknownFilter),
{
    if data.len() < 2 {
        return Err(failed("too short for zlib header"));
    }
    let cmf = data[0];
    let flg = data[1];
    if cmf & 0x0f != 8 {
        let mut m = crate::text::owned_text("unsupported zlib CM=");
        crate::text::push_digits(&mut m, (cmf & 0x0f) as u64);
        return Err(FilterError::DecodeFailed(m));
    }
    if (cmf as u16 * 256 + flg as u16) % 31 != 0 {
        return Err(failed("zlib header checksum failed"));
    }
    let start: usize = if flg & 0x20 != 0 { 6 } else { 2 };
    let end: usize = if data.len() >= 4 { data.len() - 4 } else { 0 };
    if start > end {
        return Err(failed("zlib body range is empty"));
    }
    match inflate::inflate(&data[start..end]) {
        Ok(v) => Ok(v),
        Err(m) => Err(FilterError::DecodeFailed(m)),
    }
}

/// Applies one named filter.
pub fn apply_filter(data: &[u8], name: &[u8]) -> (r: Result<Vec<u8>, FilterError>)
    ensures result_matches(r, filter_step(name@, data@)),
{
    reveal(filter_step);
    match kind_of(name) {
        FilterKind::Flate => flate_decode(data),
        FilterKind::AsciiHex => ascii_hex_decode(data),
        FilterKind::Ascii85 => ascii85_decode(data),
        FilterKind::RunLength => run_length_decode(data),
        FilterKind::Lzw => match lzw_run(data) {
            LzwRun::Done(v) => Ok(v),
            LzwRun::Failed(m) => {
                let mut e = crate::text::owned_text("LZW: ");
                crate::text::push_str(&mut e, m.as_str());
                Err(FilterError::DecodeFailed(e))
            }
            LzwRun::Aborted => Err(failed("LZW code outside the table")),
        },
        FilterKind::PassThrough => Ok(clone_bytes(data)),
        FilterKind::Unknown => Err(FilterError::UnknownFilter(crate::text::from_utf8_lossy(name))),
    }
}

/// Decodes a stream's raw bytes according to its `/Filter` entry: none, a
/// filter name, or an array of names applied left to right (PDF 32000
/// §7.3.8.1). Any other `/Filter` value leaves the bytes as they are.
///
/// Where the data would drive a decoder out of its table or past the range
/// of its arithmetic, the result is `DecodeFailed`.
pub fn decode_stream(data: &[u8], filter: Option<&CosObject>) -> (r: Result<Vec<u8>, FilterError>)
    ensures
        result_matches(r, decode_spec(data@, match filter { Some(f) => Some(f@), None => None })),
{
    match filter {
        None => Ok(clone_bytes(data)),
        Some(CosObject::Name(name)) => apply_filter(data, name.as_bytes()),
        Some(CosObject::Array(filters)) => {
            let ghost fs = view_objs(filters@);
            proof {
                assert(filter.unwrap()@ == CosValue::Array(fs));
                assert(decode_spec(data@, Some(filter.unwrap()@)) == chain_from(fs, 0, data@));
            }
            let mut current = clone_bytes(data);
            let mut i: usize = 0;
            while i < filters.len()
                invariant
                    i <= filters@.len(),
                    fs == view_objs(filters@),
                    fs.len() == filters@.len(),
                    filter is Some && filter.unwrap()@ == CosValue::Array(fs),
                    chain_from(fs, i as int, current@) == chain_from(fs, 0, data@),
                decreases filters.len() - i,
            {
                if let CosObject::Name(name) = &filters[i] {
                    let ghost before = current@;
                    proof {
                        assert(fs[i as int] == CosValue::Name(name.bytes@));
                        lemma_chain_name(fs, i as int, before, name.bytes@);
                    }
                    match apply_filter(&current, name.as_bytes()) {
                        Ok(v) => {
                            current = v;
                        }
                        Err(e) => {
                            proof {
                                assert(!(filter_step(name.bytes@, before) is Out));
                                assert(chain_from(fs, 0, data@) == filter_step(name.bytes@, before));
                                assert(result_matches(Err(e), chain_from(fs, 0, data@)));
                            }
                            return Err(e);
                        }
                    }
                } else {
                    proof { lemma_chain_other(fs, i as int, current@); }
                }
                i += 1;
            }
            Ok(current)
        }
        Some(_) => Ok(clone_bytes(data)),
    }
}

/// The upper-case hexadecimal digit (a byte) of a value `0..16`.
pub open spec fn upper_hex_digit(d: int) -> u8 {
    if d < 10 { (0x30 + d) as u8 } else { (0x41 + d - 10) as u8 }
}

/// `b` written as ASCIIHex: two upper-case digits per byte, high nibble
/// first, then the end marker `>`.
pub open spec fn ascii_hex_encoded(b: Seq<u8>) -> Seq<u8> {
    Seq::new(2 * b.len(), |k: int| upper_hex_digit(if k % 2 == 0 { b[k / 2] as int / 16 } else { b[k / 2] as int % 16 }))
        + seq![0x3eu8]
}

proof fn lemma_ahx_from_pairs(b: Seq<u8>, j: int)
    requires 0 <= j <= b.len(),
    ensures ahx_from(ascii_hex_encoded(b), 2 * j, b.take(j), None) == Decoded::Out(b),
    decreases b.len() - j,
{
    let e = ascii_hex_encoded(b);
    if j == b.len() {
        assert(e[2 * j] == 0x3e);
        assert(b.take(j) =~= b);
    } else {
        let hi = b[j] / 16;
        let lo = b[j] % 16;
        assert((2 * j) % 2 == 0 && (2 * j) / 2 == j);
        assert(e[2 * j] == upper_hex_digit(hi as int));
        assert((2 * j + 1) % 2 == 1 && (2 * j + 1) / 2 == j);
        assert(e[2 * j + 1] == upper_hex_digit(lo as int));
        assert(is_hex(e[2 * j]) && hex_val(e[2 * j]) == hi);
        assert(is_hex(e[2 * j + 1]) && hex_val(e[2 * j + 1]) == lo);
        assert(ahx_from(e, 2 * j, b.take(j), None) == ahx_from(e, 2 * j + 1, b.take(j), Some(hi)));
        assert((hi * 16 + lo) as u8 == b[j]);
        assert(b.take(j).push(b[j]) =~= b.take(j + 1));
        assert(ahx_from(e, 2 * j + 1, b.take(j), Some(hi)) == ahx_from(e, 2 * j + 2, b.take(j + 1), None));
        lemma_ahx_from_pairs(b, j + 1);
        assert(2 * (j + 1) == 2 * j + 2);
    }
}

/// ASCIIHex decoding gives back any bytes written as ASCIIHex.
pub proof fn lemma_ascii_hex_round_trip(b: Seq<u8>)
    ensures ahx_from(ascii_hex_encoded(b), 0, Seq::empty(), None) == Decoded::Out(b),
{
    lemma_ahx_from_pairs(b, 0);
    assert(b.take(0) =~= Seq::<u8>::empty());
}

/// Run-length decoding gives back a literal run: the length byte `n - 1`
/// followed by `n` bytes (`1 <= n <= 128`) and the end marker 128 decode to
/// those bytes.
pub proof fn lemma_run_length_literal(b: Seq<u8>)
    requires 1 <= b.len() <= 128,
    ensures rl_from(seq![(b.len() - 1) as u8] + b + seq![128u8], 0, Seq::empty()) == Decoded::Out(b),
{
    let d = seq![(b.len() - 1) as u8] + b + seq![128u8];
    let n = b.len() as int;
    assert(d.subrange(1, 1 + n) =~= b);
    assert(Seq::<u8>::empty() + b =~= b);
    assert(d[1 + n] == 128);
    assert(rl_from(d, 1 + n, b) == Decoded::Out(b));
}

/// Run-length decoding gives back a repeated run: the length byte `257 - n`
/// and one byte `c` (`2 <= n <= 128`), then the end marker 128, decode to
/// `n` copies of `c`.
pub proof fn lemma_run_length_repeat(n: int, c: u8)
    requires 2 <= n <= 128,
    ensures rl_from(seq![(257 - n) as u8, c, 128u8], 0, Seq::empty()) == Decoded::Out(Seq::new(n as nat, |k: int| c)),
{
    let d = seq![(257 - n) as u8, c, 128u8];
    let r = Seq::new(n as nat, |k: int| c);
    assert(Seq::<u8>::empty() + Seq::new((257 - d[0]) as nat, |k: int| d[1]) =~= r);
    assert(rl_from(d, 2, r) == Decoded::Out(r));
}

/// The big-endian value of the four bytes of group `j` of `b`.
pub open spec fn group_value(b: Seq<u8>, j: int) -> int {
    b[4 * j] * 16777216 + b[4 * j + 1] * 65536 + b[4 * j + 2] * 256 + b[4 * j + 3]
}

/// The `k`-th base-85 digit (most significant first) of `v`, as the
/// ASCII85 character `!` + digit.
pub open spec fn a85_char(v: int, k: int) -> u8 {
    let p = if k == 0 { 52200625 } else if k == 1 { 614125 } else if k == 2 { 7225 } else if k == 3 { 85 } else { 1 };
    ((v / p) % 85 + 0x21) as u8
}

/// `b` (a whole number of four-byte groups) written as ASCII85: five
/// characters per group, then the end marker `~>`.
pub open spec fn ascii85_encoded(b: Seq<u8>) -> Seq<u8> {
    Seq::new(5 * (b.len() / 4), |i: int| a85_char(group_value(b, i / 5), i % 5)) + seq![0x7eu8, 0x3eu8]
}

proof fn lemma_a85_group(v: int)
    requires 0 <= v < 0x1_0000_0000,
    ensures
        a85_value(seq![(a85_char(v, 0) - 0x21) as u8, (a85_char(v, 1) - 0x21) as u8, (a85_char(v, 2) - 0x21) as u8,
            (a85_char(v, 3) - 0x21) as u8, (a85_char(v, 4) - 0x21) as u8]) == v,
        forall|k: int| 0 <= k < 5 ==> 0x21 <= #[trigger] a85_char(v, k) <= 0x75,
{
    let a1 = v / 85;
    let a2 = v / 7225;
    let a3 = v / 614125;
    let a4 = v / 52200625;
    lemma_div_denominator(v, 85, 85);
    lemma_div_denominator(v, 7225, 85);
    lemma_div_denominator(v, 614125, 85);
    assert(a1 / 85 == a2 && a2 / 85 == a3 && a3 / 85 == a4);
    lemma_fundamental_div_mod(v, 85);
    lemma_fundamental_div_mod(a1, 85);
    lemma_fundamental_div_mod(a2, 85);
    lemma_fundamental_div_mod(a3, 85);
    lemma_div_pos_is_pos(v, 85);
    lemma_div_pos_is_pos(v, 7225);
    lemma_div_pos_is_pos(v, 614125);
    lemma_div_pos_is_pos(v, 52200625);
    lemma_mod_pos_bound(v, 85);
    lemma_mod_pos_bound(a1, 85);
    lemma_mod_pos_bound(a2, 85);
    lemma_mod_pos_bound(a3, 85);
    lemma_mod_pos_bound(a4, 85);
    assert(a4 < 85) by {
        vstd::arithmetic::div_mod::lemma_div_is_ordered(v, 0x1_0000_0000, 52200625);
        lemma_fundamental_div_mod_converse(0x1_0000_0000int, 52200625, 82, 14516046);
    }
    assert(a4 % 85 == a4) by { vstd::arithmetic::div_mod::lemma_small_mod(a4 as nat, 85); }
    let d0 = a4 % 85;
    let d1 = a3 % 85;
    let d2 = a2 % 85;
    let d3 = a1 % 85;
    let d4 = v % 85;
    assert(d0 * 52200625 + d1 * 614125 + d2 * 7225 + d3 * 85 + d4 == v) by (nonlinear_arith)
        requires v == 85 * a1 + d4, a1 == 85 * a2 + d3, a2 == 85 * a3 + d2, a3 == 85 * a4 + d1, d0 == a4;
    assert(a85_char(v, 0) == (d0 + 0x21) as u8);
    assert(a85_char(v, 4) == (d4 + 0x21) as u8);
}

proof fn lemma_be4_bytes(b: Seq<u8>, j: int)
    requires 0 <= j, 4 * j + 3 < b.len(),
    ensures be4(group_value(b, j)) == b.subrange(4 * j, 4 * j + 4),
        0 <= group_value(b, j) < 0x1_0000_0000,
{
    let v = group_value(b, j);
    let (b0, b1, b2, b3) = (b[4 * j] as int, b[4 * j + 1] as int, b[4 * j + 2] as int, b[4 * j + 3] as int);
    lemma_fundamental_div_mod_converse(v, 16777216, b0, b1 * 65536 + b2 * 256 + b3);
    lemma_fundamental_div_mod_converse(v, 65536, b0 * 256 + b1, b2 * 256 + b3);
    lemma_fundamental_div_mod_converse(v, 256, b0 * 65536 + b1 * 256 + b2, b3);
    lemma_fundamental_div_mod_converse(b0 * 256 + b1, 256, b0, b1);
    lemma_fundamental_div_mod_converse(b0 * 65536 + b1 * 256 + b2, 256, b0 * 256 + b1, b2);
    lemma_fundamental_div_mod_converse(b0, 256, 0, b0);
    assert(be4(v) =~= b.subrange(4 * j, 4 * j + 4));
}

proof fn lemma_a85_one_group(e: Seq<u8>, i: int, out: Seq<u8>, v: int)
    requires
        0 <= i, i + 5 <= e.len(),
        0 <= v < 0x1_0000_0000,
        forall|k: int| 0 <= k < 5 ==> e[i + k] == #[trigger] a85_char(v, k),
    ensures a85_from(e, i, out, Seq::empty()) == a85_from(e, i + 5, out + be4(v), Seq::empty()),
{
    lemma_a85_group(v);
    let c0 = (a85_char(v, 0) - 0x21) as u8;
    let c1 = (a85_char(v, 1) - 0x21) as u8;
    let c2 = (a85_char(v, 2) - 0x21) as u8;
    let c3 = (a85_char(v, 3) - 0x21) as u8;
    let c4 = (a85_char(v, 4) - 0x21) as u8;
    assert(e[i] == a85_char(v, 0) && e[i + 1] == a85_char(v, 1) && e[i + 2] == a85_char(v, 2));
    assert(e[i + 3] == a85_char(v, 3) && e[i + 4] == a85_char(v, 4));
    let g0 = Seq::<u8>::empty();
    let g1 = g0.push(c0);
    let g2 = g1.push(c1);
    let g3 = g2.push(c2);
    let g4 = g3.push(c3);
    let g5 = g4.push(c4);
    assert(a85_from(e, i, out, g0) == a85_from(e, i + 1, out, g1));
    assert(a85_from(e, i + 1, out, g1) == a85_from(e, i + 2, out, g2));
    assert(a85_from(e, i + 2, out, g2) == a85_from(e, i + 3, out, g3));
    assert(a85_from(e, i + 3, out, g3) == a85_from(e, i + 4, out, g4));
    assert(g5 =~= seq![c0, c1, c2, c3, c4]);
    assert(a85_value(g5) == v);
    assert(a85_from(e, i + 4, out, g4) == a85_from(e, i + 5, out + be4(v), Seq::empty()));
}

proof fn lemma_a85_from_groups(b: Seq<u8>, j: int)
    requires b.len() % 4 == 0, 0 <= j <= b.len() / 4,
    ensures a85_from(ascii85_encoded(b), 5 * j, b.take(4 * j), Seq::empty()) == Decoded::Out(b),
    decreases b.len() / 4 - j,
{
    let e = ascii85_encoded(b);
    let m = (b.len() / 4) as int;
    if j == m {
        assert(e[5 * m] == 0x7e && e[5 * m + 1] == 0x3e);
        assert(b.take(4 * j) =~= b);
    } else {
        let v = group_value(b, j);
        lemma_be4_bytes(b, j);
        assert forall|k: int| 0 <= k < 5 implies e[5 * j + k] == #[trigger] a85_char(v, k) by {
            assert((5 * j + k) / 5 == j && (5 * j + k) % 5 == k);
        }
        lemma_a85_one_group(e, 5 * j, b.take(4 * j), v);
        assert(b.take(4 * j) + be4(v) =~= b.take(4 * (j + 1)));
        lemma_a85_from_groups(b, j + 1);
        assert(5 * (j + 1) == 5 * j + 5);
    }
}

/// ASCII85 decoding gives back any whole number of four-byte groups
/// written as ASCII85 (five base-85 digits per group, most significant
/// first, then `~>`).
pub proof fn lemma_ascii85_round_trip(b: Seq<u8>)
    requires b.len() % 4 == 0,
    ensures a85_from(ascii85_encoded(b), 0, Seq::empty(), Seq::empty()) == Decoded::Out(b),
{
    lemma_a85_from_groups(b, 0);
    assert(b.take(0) =~= Seq::<u8>::empty());
}

} // verus!

//! LZW (Lempel-Ziv-Welch) stream filter (PDF 32000 §7.4.4).
//!
//! Codes are read most significant bit first, starting at 9 bits. Code 256
//! resets the table, code 257 ends the data. The table grows by one entry per
//! code after the first, and the code width grows with it up to 12 bits.
//!
//! The decoding is described by [`lzw_spec`].

use vstd::prelude::*;
use crate::bytes::clone_bytes;
use crate::text::digits_text;

verus! {

/// LZW decoder state.
pub struct LzwDecoder {
    /// Current code width in bits (9 to 12).
    pub code_size: usize,
    /// The code the next table entry is assigned.
    pub next_code: u16,
    /// The string table.
    pub table: Vec<Vec<u8>>,
}

/// Outcome of decoding, as [`lzw_spec`] describes it.
pub enum LzwOut {
    Done(Seq<u8>),
    /// The data names a code it may not, with this message.
    Failed(Seq<char>),
    /// A code refers to a table entry the table does not hold.
    Aborted,
}

/// Outcome of decoding, as the decoder returns it.
pub enum LzwRun {
    Done(Vec<u8>),
    Failed(String),
    Aborted,
}

/// Bit `k` of `data`, bits counted from the most significant bit of each byte.
pub open spec fn msb_bit(data: Seq<u8>, k: int) -> int {
    ((data[k / 8] >> ((7 - k % 8) as u8)) & 1u8) as int
}

/// The `n` bits of `data` from bit `pos`, most significant first.
pub open spec fn msb_bits(data: Seq<u8>, pos: int, n: int) -> int
    decreases n,
{
    if n <= 0 { 0 } else { msb_bits(data, pos, n - 1) * 2 + msb_bit(data, pos + n - 1) }
}

/// The initial table: one entry per byte value.
pub open spec fn initial_table() -> Seq<Seq<u8>> {
    Seq::new(256, |i: int| seq![i as u8])
}

/// The table after a reset code: entries beyond the first 258 are dropped.
pub open spec fn reset_table(t: Seq<Seq<u8>>) -> Seq<Seq<u8>> {
    if t.len() > 258 { t.subrange(0, 258) } else { t }
}

/// The code at which the code width grows, for a width of 9 to 12 bits.
pub open spec fn width_limit(size: int) -> int {
    if size == 9 { 512 } else if size == 10 { 1024 } else if size == 11 { 2048 } else { 4096 }
}

/// Decoding from bit `pos` with the given table state and output so far.
pub open spec fn lzw_from(
    data: Seq<u8>,
    pos: int,
    table: Seq<Seq<u8>>,
    next: int,
    size: int,
    prev: Option<int>,
    out: Seq<u8>,
) -> LzwOut
    decreases data.len() * 8 - pos,
{
    if size < 9 || pos < 0 || pos + size > data.len() * 8 {
        LzwOut::Done(out)
    } else {
        let code = msb_bits(data, pos, size);
        let p2 = pos + size;
        if code == 256 {
            lzw_from(data, p2, reset_table(table), 258, 9, None, out)
        } else if code == 257 {
            LzwOut::Done(out)
        } else {
            let entry: Option<Seq<u8>> = if code < table.len() {
                Some(table[code])
            } else if code == next {
                match prev {
                    Some(p) => if p < table.len() { Some(table[p].push(table[p][0])) } else { None },
                    None => Some(Seq::empty()),
                }
            } else {
                Some(Seq::empty())
            };
            match entry {
                None => LzwOut::Aborted,
                Some(s) => if s.len() == 0 {
                    LzwOut::Failed(if code == next { "Invalid LZW code"@ } else { "Invalid LZW code: "@ + digits_text(code as nat) })
                } else {
                    let out2 = out + s;
                    match prev {
                        Some(p) => if next < 4096 {
                            if p >= table.len() {
                                LzwOut::Aborted
                            } else {
                                let next2 = next + 1;
                                let size2 = if next2 == width_limit(size) && size < 12 { size + 1 } else { size };
                                lzw_from(data, p2, table.push(table[p].push(s[0])), next2, size2, Some(code), out2)
                            }
                        } else {
                            lzw_from(data, p2, table, next, size, Some(code), out2)
                        },
                        None => lzw_from(data, p2, table, next, size, Some(code), out2),
                    }
                },
            }
        }
    }
}

/// Decoding a whole LZW stream.
pub open spec fn lzw_spec(data: Seq<u8>) -> LzwOut {
    lzw_from(data, 0, initial_table(), 258, 9, None, Seq::empty())
}

/// Every table entry is non-empty.
pub open spec fn entries_nonempty(t: Seq<Vec<u8>>) -> bool {
    forall|i: int| 0 <= i < t.len() ==> #[trigger] t[i]@.len() > 0
}

pub open spec fn table_view(t: Seq<Vec<u8>>) -> Seq<Seq<u8>> {
    Seq::new(t.len(), |i: int| t[i]@)
}

impl LzwDecoder {
    /// A decoder with the initial table of 256 single-byte entries.
    pub fn new() -> (r: Self)
        ensures
            r.code_size == 9,
            r.next_code == 258,
            table_view(r.table@) == initial_table(),
            entries_nonempty(r.table@),
    {
        let mut table: Vec<Vec<u8>> = Vec::with_capacity(4096);
        let mut b: usize = 0;
        while b < 256
            invariant
                b <= 256,
                table@.len() == b,
                forall|i: int| 0 <= i < b ==> #[trigger] table@[i]@ == seq![i as u8],
            decreases 256 - b,
        {
            table.push(vec![b as u8]);
            b += 1;
        }
        let r = LzwDecoder { code_size: 9, next_code: 258, table };
        assert(table_view(r.table@) =~= initial_table());
        r
    }

    /// Decodes LZW-compressed data (see `lzw_spec`); an error where it
    /// does not decode.
    pub fn decode(data: &[u8]) -> (r: Result<Vec<u8>, String>)
        ensures
            match lzw_spec(data@) {
                LzwOut::Done(o) => r is Ok && r->Ok_0@ == o,
                LzwOut::Failed(m) => r matches Err(e) && e@ == m,
                LzwOut::Aborted => r is Err,
            },
    {
        match lzw_run(data) {
            LzwRun::Done(v) => Ok(v),
            LzwRun::Failed(m) => Err(m),
            LzwRun::Aborted => Err(String::new()),
        }
    }
}

/// `2^k`.
pub open spec fn two_pow(k: int) -> int
    decreases k,
{
    if k <= 0 { 1 } else { 2 * two_pow(k - 1) }
}

proof fn lemma_two_pow_le_4096(k: int)
    requires 0 <= k < 12,
    ensures two_pow(k) <= 2048,
{
    reveal_with_fuel(two_pow, 12);
}

proof fn lemma_shift_bit(code: u16, bit: u8)
    requires code < 0x1000, bit <= 1,
    ensures ((code << 1u16) | (bit as u16)) == code * 2 + bit,
        code * 2 + bit < 0x2000,
{
    assert(((code << 1u16) | (bit as u16)) == code * 2 + bit) by (bit_vector)
        requires code < 0x1000, bit <= 1;
}

/// Reads `size` bits from byte `byte_idx`, bit `bit_off`; `None` when the
/// data runs out first.
fn read_code(data: &[u8], byte_idx: usize, bit_off: usize, size: usize) -> (r: Option<(u16, usize, usize)>)
    requires byte_idx <= data@.len(), bit_off < 8, 9 <= size <= 12,
        byte_idx < data@.len() || bit_off == 0,
    ensures
        ({
            let pos = byte_idx * 8 + bit_off;
            match r {
                None => pos + size > data@.len() * 8,
                Some((code, b2, o2)) => pos + size <= data@.len() * 8
                    && code == msb_bits(data@, pos, size as int)
                    && b2 * 8 + o2 == pos + size && o2 < 8 && b2 <= data@.len()
                    && (b2 < data@.len() || o2 == 0),
            }
        }),
{
    let ghost pos = byte_idx * 8 + bit_off;
    let mut code: u16 = 0;
    let mut b = byte_idx;
    let mut o = bit_off;
    let mut k: usize = 0;
    while k < size
        invariant
            k <= size <= 12,
            b <= data@.len(),
            o < 8,
            b < data@.len() || o == 0,
            b * 8 + o == pos + k,
            pos == byte_idx * 8 + bit_off,
            code == msb_bits(data@, pos, k as int),
            code < two_pow(k as int),
        decreases size - k,
    {
        if b >= data.len() {
            return None;
        }
        let byte = data[b];
        let sh = (7 - o) as u8;
        let bit = (byte >> sh) & 1;
        assert(bit <= 1) by (bit_vector)
            requires bit == (byte >> sh) & 1u8;
        proof {
            lemma_two_pow_le_4096(k as int);
            lemma_shift_bit(code, bit);
            assert(msb_bit(data@, pos + k) == bit);
        }
        code = (code << 1) | (bit as u16);
        k += 1;
        if o == 7 {
            o = 0;
            b += 1;
        } else {
            o += 1;
        }
    }
    Some((code, b, o))
}

/// Decodes LZW data; `Aborted` where a code refers to an entry the table
/// does not hold.
pub fn lzw_run(data: &[u8]) -> (r: LzwRun)
    ensures
        match lzw_spec(data@) {
            LzwOut::Done(o) => r is Done && r->Done_0@ == o,
            LzwOut::Failed(m) => r matches LzwRun::Failed(e) && e@ == m,
            LzwOut::Aborted => r is Aborted,
        },
{
    let mut d = LzwDecoder::new();
    let mut output: Vec<u8> = Vec::new();
    let mut byte_idx: usize = 0;
    let mut bit_off: usize = 0;
    let mut has_prev = false;
    let mut prev: u16 = 0;
    loop
        invariant
            byte_idx <= data@.len(),
            bit_off < 8,
            byte_idx < data@.len() || bit_off == 0,
            9 <= d.code_size <= 12,
            258 <= d.next_code <= 4096,
            entries_nonempty(d.table@),
            lzw_from(data@, byte_idx * 8 + bit_off, table_view(d.table@), d.next_code as int,
                d.code_size as int, if has_prev { Some(prev as int) } else { None }, output@)
                == lzw_spec(data@),
        decreases data@.len() * 8 - (byte_idx * 8 + bit_off),
    {
        let ghost pos = byte_idx * 8 + bit_off;
        let ghost tv = table_view(d.table@);
        let (code, b2, o2) = match read_code(data, byte_idx, bit_off, d.code_size) {
            None => {
                return LzwRun::Done(output);
            }
            Some(x) => x,
        };
        byte_idx = b2;
        bit_off = o2;
        if code == 256 {
            d.table.truncate(258);
            d.next_code = 258;
            d.code_size = 9;
            has_prev = false;
            proof {
                assert(table_view(d.table@) =~= reset_table(tv));
            }
            continue;
        }
        if code == 257 {
            return LzwRun::Done(output);
        }
        let sequence: Vec<u8> = if (code as usize) < d.table.len() {
            clone_bytes(d.table[code as usize].as_slice())
        } else if code == d.next_code {
            if has_prev {
                if (prev as usize) < d.table.len() {
                    let mut s = clone_bytes(d.table[prev as usize].as_slice());
                    let first = s[0];
                    s.push(first);
                    s
                } else {
                    return LzwRun::Aborted;
                }
            } else {
                return LzwRun::Failed(crate::text::owned_text("Invalid LZW code"));
            }
        } else {
            return LzwRun::Failed(invalid_code_message(code));
        };
        assert(sequence@.len() > 0);
        let ghost out0 = output@;
        output.extend_from_slice(sequence.as_slice());
        proof { assert(output@ =~= out0 + sequence@); }
        if has_prev {
            if d.next_code < 4096 {
                if (prev as usize) >= d.table.len() {
                    return LzwRun::Aborted;
                }
                let mut new_seq = clone_bytes(d.table[prev as usize].as_slice());
                new_seq.push(sequence[0]);
                let ghost t0 = d.table@;
                d.table.push(new_seq);
                d.next_code = d.next_code + 1;
                if d.next_code == limit_of(d.code_size) && d.code_size < 12 {
                    d.code_size = d.code_size + 1;
                }
                proof {
                    assert(table_view(d.table@) =~= tv.push(tv[prev as int].push(sequence@[0])));
                    assert forall|i: int| 0 <= i < d.table@.len() implies #[trigger] d.table@[i]@.len() > 0 by {
                        if i < t0.len() { assert(d.table@[i] == t0[i]); }
                    }
                }
            }
        }
        has_prev = true;
        prev = code;
    }
}

fn limit_of(size: usize) -> (r: u16)
    requires 9 <= size <= 12,
    ensures r == width_limit(size as int),
{
    if size == 9 { 512 } else if size == 10 { 1024 } else if size == 11 { 2048 } else { 4096 }
}

/// The message for a code the table does not hold.
fn invalid_code_message(code: u16) -> (r: String)
    ensures r@ == "Invalid LZW code: "@ + digits_text(code as nat),
{
    let mut m = String::new();
    crate::text::push_str(&mut m, "Invalid LZW code: ");
    crate::text::push_digits(&mut m, code as u64);
    m
}

} // verus!

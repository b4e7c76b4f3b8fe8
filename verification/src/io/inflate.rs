//! Deflate decompression (RFC 1951): stored, fixed-Huffman and
//! dynamic-Huffman blocks.
//!
//! The bit stream is modelled as a number (`BitReader::pending`, the next
//! bit lowest); each step is proved against a spec function over it, and
//! the whole decoder against `inflate_spec`.

use vstd::prelude::*;
use crate::io::lzw::two_pow;

verus! {

/// The little-endian number the bytes `s` spell.
pub open spec fn le_value(s: Seq<u8>) -> int
    decreases s.len(),
{
    if s.len() == 0 { 0 } else { s[0] + 256 * le_value(s.drop_first()) }
}

proof fn lemma_two_pow_shift(k: u32)
    requires k < 32,
    ensures two_pow(k as int) == (1u32 << k) as int,
    decreases k,
{
    if k == 0 {
        assert((1u32 << 0u32) == 1u32) by (bit_vector);
    } else {
        lemma_two_pow_shift((k - 1) as u32);
        let j: u32 = (k - 1) as u32;
        assert((1u32 << (j + 1)) == 2 * (1u32 << j)) by (bit_vector)
            requires j < 31;
    }
}

proof fn lemma_two_pow_add(a: int, b: int)
    requires 0 <= a, 0 <= b,
    ensures two_pow(a + b) == two_pow(a) * two_pow(b),
    decreases b,
{
    if b > 0 {
        lemma_two_pow_add(a, b - 1);
        assert(two_pow(a + b) == 2 * two_pow(a + b - 1));
        assert(two_pow(a) * two_pow(b) == two_pow(a) * (2 * two_pow(b - 1)));
        assert(two_pow(a) * (2 * two_pow(b - 1)) == 2 * (two_pow(a) * two_pow(b - 1))) by (nonlinear_arith);
    }
}

proof fn lemma_two_pow_pos(k: int)
    ensures two_pow(k) >= 1,
    decreases k,
{
    if k > 0 {
        lemma_two_pow_pos(k - 1);
    }
}

/// Reads bits least significant first from a byte slice.
pub struct BitReader<'a> {
    pub data: &'a [u8],
    pub byte_pos: usize,
    pub bit_buf: u32,
    pub bits_in_buf: u8,
}

impl<'a> BitReader<'a> {
    pub open spec fn wf(&self) -> bool {
        self.byte_pos <= self.data@.len() && self.bits_in_buf <= 24 && (self.bit_buf as int) < two_pow(self.bits_in_buf as int)
    }

    /// Bits not yet consumed: those in the buffer and those still in the data.
    pub open spec fn remaining(&self) -> int {
        (self.data@.len() - self.byte_pos) * 8 + self.bits_in_buf
    }

    /// The bits not yet consumed as a number, the next bit lowest.
    pub open spec fn pending(&self) -> int {
        self.bit_buf + two_pow(self.bits_in_buf as int)
            * le_value(self.data@.subrange(self.byte_pos as int, self.data@.len() as int))
    }

    pub fn new(data: &'a [u8]) -> (r: Self)
        ensures r.wf(), r.data@ == data@, r.remaining() == data@.len() * 8, r.byte_pos == 0, r.bits_in_buf == 0,
            r.pending() == le_value(data@),
    {
        let r = BitReader { data, byte_pos: 0, bit_buf: 0, bits_in_buf: 0 };
        proof { assert(data@.subrange(0, data@.len() as int) =~= data@); }
        r
    }

    /// Reads `n` bits as a little-endian number: the next `n` bits; an
    /// error when fewer are left.
    #[verifier::rlimit(60)]
    pub fn read_bits(&mut self, n: u8) -> (r: Result<u32, String>)
        requires old(self).wf(), n <= 16,
        ensures
            final(self).wf(),
            final(self).data@ == old(self).data@,
            r is Ok <==> old(self).remaining() >= n,
            r is Ok ==> final(self).remaining() == old(self).remaining() - n,
            r is Ok ==> (r->Ok_0 as int) < two_pow(n as int),
            r is Ok ==> r->Ok_0 as int == old(self).pending() % two_pow(n as int)
                && final(self).pending() == old(self).pending() / two_pow(n as int),
            r is Err ==> final(self).remaining() == old(self).remaining() && final(self).pending() == old(self).pending(),
    {
        while self.bits_in_buf < n
            invariant
                self.wf(),
                self.data@ == old(self).data@,
                self.remaining() == old(self).remaining(),
                self.pending() == old(self).pending(),
                n <= 16,
            decreases self.data@.len() - self.byte_pos,
        {
            if self.byte_pos >= self.data.len() {
                return Err("unexpected end of deflate stream".to_owned());
            }
            let byte = self.data[self.byte_pos] as u32;
            let buf = self.bit_buf;
            let b = self.bits_in_buf;
            proof {
                lemma_two_pow_shift(b as u32);
                let bb = b as u32;
                let b8 = (b + 8) as u32;
                assert(buf | (byte << bb) == buf + byte * (1u32 << bb) && buf + byte * (1u32 << bb) < (1u32 << b8)) by (bit_vector)
                    requires bb < 16, buf < (1u32 << bb), byte < 256, b8 == bb + 8;
                lemma_two_pow_shift((b + 8) as u32);
                let s0 = self.data@.subrange(self.byte_pos as int, self.data@.len() as int);
                let s1 = self.data@.subrange(self.byte_pos + 1, self.data@.len() as int);
                assert(s0.drop_first() =~= s1);
                assert(le_value(s0) == byte + 256 * le_value(s1));
                lemma_two_pow_add(b as int, 8);
                assert(two_pow(8) == 256) by { reveal_with_fuel(two_pow, 9); }
                let t = two_pow(b as int);
                assert(buf + t * (byte + 256 * le_value(s1)) == buf + byte * t + (t * 256) * le_value(s1)) by (nonlinear_arith);
            }
            self.bit_buf = buf | (byte << b);
            self.byte_pos = self.byte_pos + 1;
            self.bits_in_buf = b + 8;
        }
        let mask = low_mask(n);
        let buf = self.bit_buf;
        let b = self.bits_in_buf;
        let val = buf & mask;
        proof {
            lemma_two_pow_shift(n as u32);
            lemma_two_pow_shift(b as u32);
            lemma_two_pow_shift((b - n) as u32);
            let nn = n as u32;
            let bb = b as u32;
            let rr = (b - n) as u32;
            assert(val <= mask && val == buf % (1u32 << nn) && (buf >> nn) == buf / (1u32 << nn)
                && (buf >> nn) < (1u32 << rr)) by (bit_vector)
                requires val == buf & mask, mask == (1u32 << nn) - 1, nn <= 16, nn <= bb, bb <= 24, buf < (1u32 << bb),
                    rr == bb - nn;
            let x = le_value(self.data@.subrange(self.byte_pos as int, self.data@.len() as int));
            let pn = two_pow(n as int);
            let pr = two_pow((b - n) as int);
            lemma_two_pow_add(n as int, (b - n) as int);
            lemma_two_pow_pos(n as int);
            assert(two_pow(b as int) == pn * pr);
            assert(x >= 0) by { lemma_le_value_nonneg(self.data@.subrange(self.byte_pos as int, self.data@.len() as int)); }
            assert((pn * pr) * x == pn * (pr * x)) by (nonlinear_arith);
            assert(pr * x >= 0) by (nonlinear_arith) requires pr >= 1, x >= 0;
            lemma_split_div(buf as int, pn, pr * x);
        }
        self.bit_buf = buf >> n;
        self.bits_in_buf = b - n;
        Ok(val)
    }

    /// Drops the bits up to the next byte boundary.
    pub fn align_to_byte(&mut self)
        requires old(self).wf(),
        ensures
            final(self).wf(),
            final(self).data@ == old(self).data@,
            final(self).remaining() == old(self).remaining() - old(self).remaining() % 8,
            final(self).pending() == old(self).pending() / two_pow(old(self).remaining() % 8),
            final(self).byte_pos == old(self).byte_pos,
            final(self).bits_in_buf % 8 == 0,
    {
        let d = self.bits_in_buf % 8;
        let buf = self.bit_buf;
        let b = self.bits_in_buf;
        proof {
            let rem = old(self).remaining();
            let k = self.data@.len() - self.byte_pos;
            assert(rem == k * 8 + b);
            assert(rem % 8 == d as int) by (nonlinear_arith)
                requires rem == k * 8 + b, d == b % 8, k >= 0, b >= 0;
            lemma_two_pow_shift(d as u32);
            lemma_two_pow_shift(b as u32);
            lemma_two_pow_shift((b - d) as u32);
            let dd = d as u32;
            let bb = b as u32;
            let rr = (b - d) as u32;
            assert((buf >> dd) == buf / (1u32 << dd) && (buf >> dd) < (1u32 << rr)) by (bit_vector)
                requires dd < 8, dd <= bb, bb <= 24, buf < (1u32 << bb), rr == bb - dd;
            let x = le_value(self.data@.subrange(self.byte_pos as int, self.data@.len() as int));
            let pn = two_pow(d as int);
            let pr = two_pow((b - d) as int);
            lemma_two_pow_add(d as int, (b - d) as int);
            lemma_two_pow_pos(d as int);
            assert(x >= 0) by { lemma_le_value_nonneg(self.data@.subrange(self.byte_pos as int, self.data@.len() as int)); }
            assert((pn * pr) * x == pn * (pr * x)) by (nonlinear_arith);
            assert(pr * x >= 0) by (nonlinear_arith) requires pr >= 1, x >= 0;
            lemma_split_div(buf as int, pn, pr * x);
        }
        self.bit_buf = buf >> d;
        self.bits_in_buf = b - d;
    }

    /// Reads one byte: the next eight bits when the buffer holds a whole
    /// byte, else the next byte of the data (the buffered bits stay).
    pub fn read_byte(&mut self) -> (r: Result<u8, String>)
        requires old(self).wf(),
        ensures
            final(self).wf(),
            final(self).data@ == old(self).data@,
            r is Ok ==> final(self).remaining() < old(self).remaining(),
            old(self).bits_in_buf >= 8 ==> r is Ok && r->Ok_0 as int == old(self).pending() % 256
                && final(self).pending() == old(self).pending() / 256
                && final(self).remaining() == old(self).remaining() - 8,
            old(self).bits_in_buf < 8 && old(self).byte_pos < old(self).data@.len() ==> r is Ok
                && r->Ok_0 == old(self).data@[old(self).byte_pos as int]
                && final(self).byte_pos == old(self).byte_pos + 1
                && final(self).bit_buf == old(self).bit_buf && final(self).bits_in_buf == old(self).bits_in_buf,
            old(self).bits_in_buf < 8 && old(self).byte_pos >= old(self).data@.len() ==> r is Err && *final(self) == *old(self),
    {
        if self.bits_in_buf >= 8 {
            let buf = self.bit_buf;
            let bi = self.bits_in_buf;
            let b = (buf & 0xff) as u8;
            proof {
                lemma_two_pow_shift(bi as u32);
                lemma_two_pow_shift((bi - 8) as u32);
                let bb = bi as u32;
                let rr = (bi - 8) as u32;
                assert((buf & 0xff) == buf % 256 && (buf >> 8u8) == buf / 256 && (buf >> 8u8) < (1u32 << rr)) by (bit_vector)
                    requires 8 <= bb <= 24, buf < (1u32 << bb), rr == bb - 8;
                let x = le_value(self.data@.subrange(self.byte_pos as int, self.data@.len() as int));
                let pr = two_pow((bi - 8) as int);
                lemma_two_pow_add(8, (bi - 8) as int);
                assert(two_pow(8) == 256) by { reveal_with_fuel(two_pow, 9); }
                lemma_two_pow_pos((bi - 8) as int);
                assert(x >= 0) by { lemma_le_value_nonneg(self.data@.subrange(self.byte_pos as int, self.data@.len() as int)); }
                assert((256 * pr) * x == 256 * (pr * x)) by (nonlinear_arith);
                assert(pr * x >= 0) by (nonlinear_arith) requires pr >= 1, x >= 0;
                lemma_split_div(buf as int, 256, pr * x);
            }
            self.bit_buf = buf >> 8;
            self.bits_in_buf = bi - 8;
            Ok(b)
        } else {
            if self.byte_pos >= self.data.len() {
                return Err("unexpected end (byte)".to_owned());
            }
            let b = self.data[self.byte_pos];
            self.byte_pos = self.byte_pos + 1;
            Ok(b)
        }
    }

    /// Reads a little-endian 16-bit number from two `read_byte` steps; on
    /// a byte boundary, the next sixteen bits.
    #[verifier::spinoff_prover]
    pub fn read_u16_le(&mut self) -> (r: Result<u16, String>)
        requires old(self).wf(),
        ensures
            final(self).wf(),
            final(self).data@ == old(self).data@,
            r is Ok ==> final(self).remaining() < old(self).remaining(),
            old(self).bits_in_buf % 8 == 0 ==> (r is Ok <==> old(self).remaining() >= 16),
            old(self).bits_in_buf % 8 == 0 && r is Ok ==> r->Ok_0 as int == old(self).pending() % 65536
                && final(self).pending() == old(self).pending() / 65536
                && final(self).remaining() == old(self).remaining() - 16,
    {
        let ghost s0 = *self;
        proof { lemma_aligned_byte(s0); }
        let lo = self.read_byte()?;
        let ghost s1 = *self;
        proof {
            lemma_aligned_byte(s1);
            if s0.bits_in_buf % 8 == 0 {
                if s0.bits_in_buf < 8 {
                    assert(two_pow(0) == 1);
                    assert(s0.byte_pos < s0.data@.len());
                    assert(s1.bits_in_buf == 0);
                    assert(s1.bit_buf == 0);
                    assert(two_pow(s1.bits_in_buf as int) == 1);
                }
                assert(lo as int == s0.pending() % 256 && s1.pending() == s0.pending() / 256);
                assert(s1.bits_in_buf % 8 == 0);
            }
        }
        let hi = self.read_byte()?;
        let ghost s2 = *self;
        proof {
            if s1.bits_in_buf % 8 == 0 {
                if s1.bits_in_buf < 8 {
                    assert(two_pow(0) == 1);
                    assert(s1.byte_pos < s1.data@.len());
                    assert(s2.bits_in_buf == 0);
                    assert(s2.bit_buf == 0);
                    assert(two_pow(s2.bits_in_buf as int) == 1);
                }
                assert(hi as int == s1.pending() % 256 && s2.pending() == s1.pending() / 256);
            }
            assert(lo as u16 | ((hi as u16) << 8) == lo as u16 + 256 * (hi as u16)) by (bit_vector);
        }
        proof {
            if s0.bits_in_buf % 8 == 0 {
                let p = s0.pending();
                assert(p >= 0) by { lemma_pending_nonneg(s0); }
                vstd::arithmetic::div_mod::lemma_fundamental_div_mod(p, 256);
                vstd::arithmetic::div_mod::lemma_fundamental_div_mod(p / 256, 256);
                vstd::arithmetic::div_mod::lemma_mod_pos_bound(p, 256);
                vstd::arithmetic::div_mod::lemma_mod_pos_bound(p / 256, 256);
                let q = (p / 256) / 256;
                assert(p == 65536 * q + (lo as int + 256 * (hi as int))) by (nonlinear_arith)
                    requires p == 256 * (p / 256) + p % 256, p / 256 == 256 * q + (p / 256) % 256,
                        lo as int == p % 256, hi as int == (p / 256) % 256;
                vstd::arithmetic::div_mod::lemma_fundamental_div_mod_converse(p, 65536, q, lo as int + 256 * (hi as int));
            }
        }
        Ok(lo as u16 | ((hi as u16) << 8))
    }
}

proof fn lemma_split_div(a: int, m: int, k: int)
    requires a >= 0, m > 0, k >= 0,
    ensures (a + m * k) % m == a % m, (a + m * k) / m == a / m + k,
{
    vstd::arithmetic::div_mod::lemma_fundamental_div_mod(a, m);
    vstd::arithmetic::div_mod::lemma_mod_pos_bound(a, m);
    let q = a / m;
    assert((q + k) * m == m * q + m * k) by (nonlinear_arith);
    vstd::arithmetic::div_mod::lemma_fundamental_div_mod_converse(a + m * k, m, q + k, a % m);
}

proof fn lemma_le_value_nonneg(s: Seq<u8>)
    ensures le_value(s) >= 0,
    decreases s.len(),
{
    if s.len() > 0 {
        lemma_le_value_nonneg(s.drop_first());
    }
}

proof fn lemma_pending_nonneg(r: BitReader)
    requires r.wf(),
    ensures r.pending() >= 0,
{
    lemma_le_value_nonneg(r.data@.subrange(r.byte_pos as int, r.data@.len() as int));
    lemma_two_pow_pos(r.bits_in_buf as int);
    let t = two_pow(r.bits_in_buf as int);
    let x = le_value(r.data@.subrange(r.byte_pos as int, r.data@.len() as int));
    assert(t * x >= 0) by (nonlinear_arith) requires t >= 1, x >= 0;
}

/// On a byte boundary with no whole byte buffered, the buffer is empty and
/// the next byte of the data is the low byte of what is pending.
proof fn lemma_aligned_byte(r: BitReader)
    requires r.wf(),
    ensures
        r.bits_in_buf % 8 == 0 && r.bits_in_buf < 8 ==> r.bit_buf == 0 && (r.byte_pos < r.data@.len() ==> (
            r.data@[r.byte_pos as int] as int == r.pending() % 256
            && le_value(r.data@.subrange(r.byte_pos + 1, r.data@.len() as int)) == r.pending() / 256)),
        r.bits_in_buf % 8 == 0 && r.bits_in_buf < 8 ==> (r.remaining() >= 8 <==> r.byte_pos < r.data@.len()),
{
    if r.bits_in_buf % 8 == 0 && r.bits_in_buf < 8 {
        assert(r.bits_in_buf == 0);
        assert(two_pow(0) == 1);
        if r.byte_pos < r.data@.len() {
            let s0 = r.data@.subrange(r.byte_pos as int, r.data@.len() as int);
            let s1 = r.data@.subrange(r.byte_pos + 1, r.data@.len() as int);
            assert(s0.drop_first() =~= s1);
            lemma_le_value_nonneg(s1);
            let b = r.data@[r.byte_pos as int] as int;
            let x = le_value(s1);
            assert((b + 256 * x) % 256 == b && (b + 256 * x) / 256 == x) by (nonlinear_arith)
                requires 0 <= b < 256, x >= 0;
        }
    }
}

/// `2^n - 1` for `n <= 16`.
fn low_mask(n: u8) -> (m: u32)
    requires n <= 16,
    ensures m as int == two_pow(n as int) - 1,
{
    proof { reveal_with_fuel(two_pow, 17); }
    match n {
        0 => 0,
        1 => 1,
        2 => 3,
        3 => 7,
        4 => 15,
        5 => 31,
        6 => 63,
        7 => 127,
        8 => 255,
        9 => 511,
        10 => 1023,
        11 => 2047,
        12 => 4095,
        13 => 8191,
        14 => 16383,
        15 => 32767,
        _ => 65535,
    }
}

/// The largest of the first `n` code lengths.
pub open spec fn max_len(lens: Seq<u8>, n: int) -> int
    decreases n,
{
    if n <= 0 { 0 } else if lens[n - 1] > max_len(lens, n - 1) { lens[n - 1] as int } else { max_len(lens, n - 1) }
}

/// How many of the first `n` code lengths equal `l`.
pub open spec fn count_len(lens: Seq<u8>, l: int, n: int) -> int
    decreases n,
{
    if n <= 0 { 0 } else { count_len(lens, l, n - 1) + if lens[n - 1] as int == l { 1int } else { 0int } }
}

/// The first code of length `l` in the canonical code of `lens`
/// (RFC 1951 §3.2.2).
pub open spec fn first_code(lens: Seq<u8>, l: int) -> int
    decreases l,
{
    if l <= 1 { 0 } else { (first_code(lens, l - 1) + count_len(lens, l - 1, lens.len() as int)) * 2 }
}

/// The codes of the symbols below `n` that have a length, in symbol
/// order: each symbol gets the next code of its length.
pub open spec fn sym_codes(lens: Seq<u8>, n: int) -> Seq<(u8, u16, u32)>
    decreases n,
{
    if n <= 0 {
        Seq::empty()
    } else {
        sym_codes(lens, n - 1) + if lens[n - 1] > 0 {
            seq![(lens[n - 1], (n - 1) as u16,
                (first_code(lens, lens[n - 1] as int) + count_len(lens, lens[n - 1] as int, n - 1)) as u32)]
        } else {
            Seq::empty()
        }
    }
}

/// The entries of `raw` with length `l`, in order.
pub open spec fn of_len(raw: Seq<(u8, u16, u32)>, l: int) -> Seq<(u8, u16, u32)>
    decreases raw.len(),
{
    if raw.len() == 0 {
        Seq::empty()
    } else {
        of_len(raw.drop_last(), l) + if raw.last().0 as int == l { seq![raw.last()] } else { Seq::empty() }
    }
}

/// The entries of `raw` with lengths `1..l`, shorter lengths first.
pub open spec fn by_len(raw: Seq<(u8, u16, u32)>, l: int) -> Seq<(u8, u16, u32)>
    decreases l,
{
    if l <= 1 { Seq::empty() } else { by_len(raw, l - 1) + of_len(raw, l - 1) }
}

/// The canonical Huffman code of `lens`: the symbols' codes ordered by
/// length, then symbol.
pub open spec fn canonical_code(lens: Seq<u8>) -> Seq<(u8, u16, u32)> {
    by_len(sym_codes(lens, lens.len() as int), max_len(lens, lens.len() as int) + 1)
}

proof fn lemma_max_len(lens: Seq<u8>, n: int)
    requires 0 <= n <= lens.len(),
    ensures forall|k: int| 0 <= k < n ==> lens[k] <= max_len(lens, n), max_len(lens, n) >= 0,
    decreases n,
{
    if n > 0 {
        lemma_max_len(lens, n - 1);
    }
}

proof fn lemma_first_code_nonneg(lens: Seq<u8>, l: int)
    ensures first_code(lens, l) >= 0,
    decreases l,
{
    if l > 1 {
        lemma_first_code_nonneg(lens, l - 1);
        lemma_count_len_nonneg(lens, l - 1, lens.len() as int);
    }
}

proof fn lemma_count_len_nonneg(lens: Seq<u8>, l: int, n: int)
    ensures count_len(lens, l, n) >= 0,
    decreases n,
{
    if n > 0 {
        lemma_count_len_nonneg(lens, l, n - 1);
    }
}

/// A canonical Huffman code: `(length, symbol, code)` triples ordered by
/// length, then symbol.
pub struct HuffmanTree {
    pub entries: Vec<(u8, u16, u32)>,
}

impl HuffmanTree {
    /// Every code has 1 to 15 bits.
    pub open spec fn lens_ok(&self) -> bool {
        forall|i: int| 0 <= i < self.entries@.len() ==> 1 <= (#[trigger] self.entries@[i]).0 <= 15
    }

    /// Every code has 1 to 15 bits and a symbol below `nsym`.
    pub open spec fn wf(&self, nsym: int) -> bool {
        &&& self.lens_ok()
        &&& forall|i: int| 0 <= i < self.entries@.len() ==> ((#[trigger] self.entries@[i]).1 as int) < nsym
    }

    /// Builds the canonical code for the given code lengths (0 = unused)
    /// (see `canonical_code`).
    pub fn from_lengths(lengths: &[u8]) -> (r: Self)
        requires
            lengths@.len() <= 320,
            forall|i: int| 0 <= i < lengths@.len() ==> lengths@[i] <= 15,
        ensures r.wf(lengths@.len() as int), r.entries@ == canonical_code(lengths@),
    {
        let ghost lens = lengths@;
        let ghost nn = lengths@.len() as int;
        let n = lengths.len();
        let mut max_bits: u8 = 0;
        let mut i: usize = 0;
        while i < n
            invariant i <= n == lengths@.len(), max_bits <= 15, lens == lengths@,
                forall|k: int| 0 <= k < lengths@.len() ==> lengths@[k] <= 15,
                max_bits as int == max_len(lens, i as int),
            decreases n - i,
        {
            if lengths[i] > max_bits {
                max_bits = lengths[i];
            }
            i += 1;
        }
        proof { lemma_max_len(lens, nn); }
        if max_bits == 0 {
            let r = HuffmanTree { entries: Vec::new() };
            proof { assert(r.entries@ =~= by_len(sym_codes(lens, nn), 1)); }
            return r;
        }
        let mb = max_bits as usize;
        let mut bl_count: Vec<u32> = vec![0u32; mb + 1];
        i = 0;
        while i < n
            invariant
                i <= n == lengths@.len() <= 320,
                lens == lengths@, nn == n,
                bl_count@.len() == mb + 1,
                1 <= mb <= 15,
                mb == max_len(lens, nn),
                forall|k: int| 0 <= k < nn ==> lens[k] <= mb,
                forall|k: int| 0 <= k < lengths@.len() ==> lengths@[k] <= 15,
                forall|k: int| 0 <= k < bl_count@.len() ==> bl_count@[k] <= i,
                bl_count@[0] == 0,
                forall|l: int| 1 <= l <= mb ==> bl_count@[l] as int == #[trigger] count_len(lens, l, i as int),
            decreases n - i,
        {
            let l = lengths[i] as usize;
            let ghost bc0 = bl_count@;
            if l > 0 && l <= mb {
                bl_count.set(l, bl_count[l] + 1);
            }
            proof {
                assert(lens[i as int] as int == l as int);
                assert forall|l2: int| 1 <= l2 <= mb implies bl_count@[l2] as int == #[trigger] count_len(lens, l2, i + 1) by {
                    assert(count_len(lens, l2, i + 1) == count_len(lens, l2, i as int) + if lens[i as int] as int == l2 { 1int } else { 0int });
                    assert(bc0[l2] as int == count_len(lens, l2, i as int));
                }
            }
            i += 1;
        }
        let mut next_code: Vec<u32> = vec![0u32; mb + 2];
        let mut code: u32 = 0;
        let mut bits: usize = 1;
        let ghost mut p: int = 1;
        proof { lemma_first_code_nonneg(lens, 0); }
        while bits <= mb
            invariant
                1 <= bits <= mb + 1,
                1 <= mb <= 15,
                next_code@.len() == mb + 2,
                bl_count@.len() == mb + 1,
                forall|k: int| 0 <= k < bl_count@.len() ==> bl_count@[k] <= 320,
                code + 640 <= 640 * p,
                p <= two_pow(bits - 1),
                bits <= mb ==> two_pow(bits - 1) <= 16384,
                forall|k: int| 0 <= k < next_code@.len() ==> next_code@[k] <= 20971520,
                bl_count@[0] == 0,
                forall|l: int| 1 <= l <= mb ==> bl_count@[l] as int == #[trigger] count_len(lens, l, nn),
                code as int == first_code(lens, bits as int - 1),
                nn == lens.len(),
                forall|l: int| 1 <= l < bits ==> next_code@[l] as int == #[trigger] first_code(lens, l),
            decreases mb + 1 - bits,
        {
            let c = code + bl_count[bits - 1];
            assert(c < 0x8000_0000);
            assert((c << 1u32) == c * 2) by (bit_vector)
                requires c < 0x8000_0000u32;
            code = c << 1;
            proof {
                p = 2 * p;
                if bits < mb {
                    assert(two_pow(bits as int) == 2 * two_pow(bits - 1));
                    lemma_two_pow_le(bits as int);
                }
                if bits == 1 {
                    assert(first_code(lens, 1) == 0);
                    assert(first_code(lens, 0) == 0);
                } else {
                    assert(first_code(lens, bits as int) == (first_code(lens, bits - 1) + count_len(lens, bits - 1, nn)) * 2);
                }
            }
            next_code.set(bits, code);
            bits += 1;
        }
        let mut raw: Vec<(u8, u16, u32)> = Vec::new();
        let mut sym: usize = 0;
        proof {
            assert forall|l: int| 1 <= l <= mb implies next_code@[l] as int == #[trigger] first_code(lens, l) + count_len(lens, l, 0) by {}
            assert(raw@ =~= sym_codes(lens, 0));
        }
        while sym < n
            invariant
                sym <= n == lengths@.len() <= 320,
                lens == lengths@, nn == n,
                next_code@.len() == mb + 2,
                1 <= mb <= 15,
                forall|k: int| 0 <= k < nn ==> lens[k] <= mb,
                forall|k: int| 0 <= k < lengths@.len() ==> lengths@[k] <= 15,
                forall|k: int| 0 <= k < next_code@.len() ==> next_code@[k] <= 20971520 + sym,
                forall|k: int| 0 <= k < raw@.len() ==>
                    1 <= (#[trigger] raw@[k]).0 <= 15 && (raw@[k].1 as int) < n,
                forall|l: int| 1 <= l <= mb ==> next_code@[l] as int == first_code(lens, l) + #[trigger] count_len(lens, l, sym as int),
                raw@ == sym_codes(lens, sym as int),
            decreases n - sym,
        {
            let l = lengths[sym];
            let ghost before = raw@;
            if l > 0 && (l as usize) <= mb {
                let c = next_code[l as usize];
                raw.push((l, sym as u16, c));
                next_code.set(l as usize, c + 1);
            }
            proof {
                assert(lens[sym as int] == l);
                assert(raw@ =~= sym_codes(lens, sym + 1));
                assert forall|l2: int| 1 <= l2 <= mb implies next_code@[l2] as int == first_code(lens, l2) + #[trigger] count_len(lens, l2, sym + 1) by {
                    assert(count_len(lens, l2, sym + 1) == count_len(lens, l2, sym as int) + if lens[sym as int] as int == l2 { 1int } else { 0int });
                }
            }
            sym += 1;
        }
        let mut entries: Vec<(u8, u16, u32)> = Vec::new();
        let mut l: u8 = 1;
        proof { assert(entries@ =~= by_len(raw@, 1)); }
        while l <= max_bits
            invariant
                1 <= l <= max_bits + 1,
                max_bits <= 15,
                forall|k: int| 0 <= k < raw@.len() ==>
                    1 <= (#[trigger] raw@[k]).0 <= 15 && (raw@[k].1 as int) < n,
                forall|k: int| 0 <= k < entries@.len() ==>
                    1 <= (#[trigger] entries@[k]).0 <= 15 && (entries@[k].1 as int) < n,
                entries@ == by_len(raw@, l as int),
            decreases max_bits + 1 - l,
        {
            let mut k: usize = 0;
            let ghost e0 = entries@;
            proof { assert(e0 + of_len(raw@.take(0), l as int) =~= e0); }
            while k < raw.len()
                invariant
                    k <= raw@.len(),
                    forall|j: int| 0 <= j < raw@.len() ==>
                        1 <= (#[trigger] raw@[j]).0 <= 15 && (raw@[j].1 as int) < n,
                    forall|j: int| 0 <= j < entries@.len() ==>
                        1 <= (#[trigger] entries@[j]).0 <= 15 && (entries@[j].1 as int) < n,
                    entries@ == e0 + of_len(raw@.take(k as int), l as int),
                decreases raw@.len() - k,
            {
                proof { assert(raw@.take(k + 1).drop_last() =~= raw@.take(k as int)); }
                if raw[k].0 == l {
                    entries.push(raw[k]);
                }
                proof { assert(entries@ =~= e0 + of_len(raw@.take(k + 1), l as int)); }
                k += 1;
            }
            proof { assert(raw@.take(raw@.len() as int) =~= raw@); }
            l += 1;
        }
        HuffmanTree { entries }
    }

    /// Decodes one symbol, reading code bits most significant first (see
    /// `huffman_decode`).
    pub fn decode(&self, reader: &mut BitReader) -> (r: Result<u16, String>)
        requires old(reader).wf(), self.lens_ok(),
        ensures
            final(reader).wf(),
            final(reader).data@ == old(reader).data@,
            r is Ok ==> final(reader).remaining() < old(reader).remaining(),
            r is Ok ==> forall|n: int| #[trigger] self.wf(n) ==> (r->Ok_0 as int) < n,
            match huffman_decode(self.entries@, old(reader).pending(), old(reader).remaining(), 0, 0) {
                Some((sym, l)) => r == Ok::<u16, String>(sym) && final(reader).remaining() == old(reader).remaining() - l
                    && final(reader).pending() == old(reader).pending() / two_pow(l),
                None => r is Err,
            },
    {
        let ghost p0 = reader.pending();
        let ghost rem0 = reader.remaining();
        proof { lemma_pending_nonneg(*reader); }
        if self.entries.len() == 0 {
            return Err("empty huffman tree".to_owned());
        }
        let mut code: u32 = 0;
        let mut bits_read: u8 = 0;
        let mut i: usize = 0;
        proof { assert(two_pow(0) == 1); }
        while i < self.entries.len()
            invariant
                reader.wf(),
                reader.data@ == old(reader).data@,
                reader.remaining() == old(reader).remaining() - bits_read,
                rem0 == old(reader).remaining(),
                p0 == old(reader).pending(), p0 >= 0,
                reader.pending() == p0 / two_pow(bits_read as int),
                code as int == msb_bits(p0, bits_read as nat),
                bits_read <= 15,
                i <= self.entries@.len(),
                i > 0 ==> bits_read >= 1,
                self.lens_ok(),
                huffman_decode(self.entries@, p0, rem0, i as int, bits_read as int)
                    == huffman_decode(self.entries@, p0, rem0, 0, 0),
            decreases self.entries@.len() - i,
        {
            let (len, sym, expected) = self.entries[i];
            assert(1 <= self.entries@[i as int].0 <= 15);
            while bits_read < len
                invariant
                    reader.wf(),
                    reader.data@ == old(reader).data@,
                    reader.remaining() == old(reader).remaining() - bits_read,
                    rem0 == old(reader).remaining(),
                    p0 == old(reader).pending(), p0 >= 0,
                    reader.pending() == p0 / two_pow(bits_read as int),
                    code as int == msb_bits(p0, bits_read as nat),
                    bits_read <= 15,
                    len <= 15,
                    i < self.entries@.len(),
                    self.entries@[i as int] == (len, sym, expected),
                    huffman_decode(self.entries@, p0, rem0, i as int, bits_read as int)
                        == huffman_decode(self.entries@, p0, rem0, 0, 0),
                    bits_read < len ==> huffman_decode(self.entries@, p0, rem0, i as int, bits_read as int)
                        == huffman_decode(self.entries@, p0, rem0, i as int, len as int),
                decreases len - bits_read,
            {
                let ghost k = bits_read as int;
                let b = match reader.read_bits(1) {
                    Ok(b) => b,
                    Err(e) => {
                        proof {
                            assert(huffman_decode(self.entries@, p0, rem0, i as int, len as int) is None);
                            assert(huffman_decode(self.entries@, p0, rem0, 0, 0) is None);
                            assert(rem0 == old(reader).remaining() && p0 == old(reader).pending());
                        }
                        return Err(e);
                    }
                };
                proof {
                    assert(two_pow(1) == 2) by { reveal_with_fuel(two_pow, 2); }
                    lemma_two_pow_pos(k);
                    lemma_two_pow_add(k, 1);
                    vstd::arithmetic::div_mod::lemma_div_denominator(p0, two_pow(k), 2);
                    assert(b as int == (p0 / two_pow(k)) % 2);
                    assert(b <= 1);
                    let c = code;
                    lemma_msb_bits_bound(p0, k as nat);
                    lemma_two_pow_le(k);
                    assert((c << 1) | b == 2 * c + b) by (bit_vector)
                        requires c < 0x8000, b <= 1;
                    assert(msb_bits(p0, (k + 1) as nat) == msb_bits(p0, k as nat) * 2 + (p0 / two_pow(k)) % 2);
                }
                code = (code << 1) | b;
                bits_read = bits_read + 1;
                proof {
                    if bits_read < len {
                        lemma_decode_same(self.entries@, p0, rem0, i as int, bits_read as int, len as int);
                    }
                }
            }
            proof {
                if bits_read >= len {
                    lemma_decode_step(self.entries@, p0, rem0, i as int, bits_read as int);
                }
            }
            if code == expected {
                return Ok(sym);
            }
            i += 1;
        }
        proof { assert(huffman_decode(self.entries@, p0, rem0, i as int, bits_read as int) is None); }
        Err("invalid huffman code".to_owned())
    }
}

/// The first `k` bits of `p` (least significant first) read as a number
/// most significant first.
pub open spec fn msb_bits(p: int, k: nat) -> int
    decreases k,
{
    if k == 0 { 0 } else { msb_bits(p, (k - 1) as nat) * 2 + (p / two_pow(k - 1)) % 2 }
}

/// Decoding with the code entries from `i`, `got` bits read so far: an
/// entry matches when the bits read up to its length (or more, if more
/// were read) spell its code. The symbol and the bits read; `None` when
/// no entry matches before the `rem` bits run out.
pub open spec fn huffman_decode(es: Seq<(u8, u16, u32)>, p: int, rem: int, i: int, got: int) -> Option<(u16, int)>
    decreases es.len() - i,
{
    if i < 0 || i >= es.len() {
        None
    } else {
        let l = if got < es[i].0 { es[i].0 as int } else { got };
        if l > rem {
            None
        } else if msb_bits(p, l as nat) == es[i].2 as int {
            Some((es[i].1, l))
        } else {
            huffman_decode(es, p, rem, i + 1, l)
        }
    }
}

proof fn lemma_decode_same(es: Seq<(u8, u16, u32)>, p: int, rem: int, i: int, g1: int, g2: int)
    requires 0 <= i < es.len(), g1 <= g2 <= es[i].0,
    ensures huffman_decode(es, p, rem, i, g1) == huffman_decode(es, p, rem, i, g2),
{
}

proof fn lemma_decode_step(es: Seq<(u8, u16, u32)>, p: int, rem: int, i: int, got: int)
    requires 0 <= i < es.len(), got >= es[i].0, got <= rem,
    ensures huffman_decode(es, p, rem, i, got) == if msb_bits(p, got as nat) == es[i].2 as int {
        Some((es[i].1, got))
    } else {
        huffman_decode(es, p, rem, i + 1, got)
    },
{
}

proof fn lemma_msb_bits_bound(p: int, k: nat)
    requires p >= 0,
    ensures 0 <= msb_bits(p, k) < two_pow(k as int),
    decreases k,
{
    if k > 0 {
        lemma_msb_bits_bound(p, (k - 1) as nat);
        lemma_two_pow_pos((k - 1) as int);
        vstd::arithmetic::div_mod::lemma_mod_pos_bound(p / two_pow(k - 1), 2);
        vstd::arithmetic::div_mod::lemma_div_pos_is_pos(p, two_pow(k - 1));
    }
}

proof fn lemma_two_pow_le(k: int)
    requires 0 <= k <= 14,
    ensures two_pow(k) <= 16384,
{
    reveal_with_fuel(two_pow, 15);
}

/// The code lengths of the fixed literal/length code (RFC 1951 §3.2.6).
pub open spec fn fixed_ll_lengths() -> Seq<u8> {
    Seq::new(288, |i: int| if i <= 143 { 8u8 } else if i <= 255 { 9u8 } else if i <= 279 { 7u8 } else { 8u8 })
}

/// The code lengths of the fixed distance code: 5 bits for each of 32
/// symbols.
pub open spec fn fixed_dist_lengths() -> Seq<u8> {
    Seq::new(32, |i: int| 5u8)
}

/// The fixed literal/length and distance codes.
fn fixed_huffman_trees() -> (r: (HuffmanTree, HuffmanTree))
    ensures r.0.wf(288), r.1.wf(32),
        r.0.entries@ == canonical_code(fixed_ll_lengths()),
        r.1.entries@ == canonical_code(fixed_dist_lengths()),
{
    let mut ll: Vec<u8> = vec![0u8; 288];
    let mut i: usize = 0;
    while i < 288
        invariant i <= 288, ll@.len() == 288,
            forall|k: int| 0 <= k < 288 ==> ll@[k] <= 15,
            forall|k: int| 0 <= k < i ==> ll@[k] == fixed_ll_lengths()[k],
        decreases 288 - i,
    {
        let v: u8 = if i <= 143 { 8 } else if i <= 255 { 9 } else if i <= 279 { 7 } else { 8 };
        ll.set(i, v);
        i += 1;
    }
    proof { assert(ll@ =~= fixed_ll_lengths()); }
    let mut dist: Vec<u8> = Vec::new();
    let mut j: usize = 0;
    while j < 32
        invariant j <= 32, dist@ == fixed_dist_lengths().take(j as int),
        decreases 32 - j,
    {
        dist.push(5u8);
        proof { assert(dist@ =~= fixed_dist_lengths().take(j + 1)); }
        j += 1;
    }
    proof { assert(dist@ =~= fixed_dist_lengths()); }
    (HuffmanTree::from_lengths(ll.as_slice()), HuffmanTree::from_lengths(dist.as_slice()))
}

/// The order in which code-length code lengths are stored (RFC 1951 §3.2.7).
pub open spec fn cl_order_table() -> Seq<usize> {
    seq![16usize, 17, 18, 0, 8, 7, 9, 6, 10, 5, 11, 4, 12, 3, 13, 2, 14, 1, 15]
}

/// The order in which code-length code lengths are stored.
fn cl_order(i: usize) -> (r: usize)
    requires i < 19,
    ensures r == cl_order_table()[i as int], r < 19,
{
    match i {
        0 => 16, 1 => 17, 2 => 18, 3 => 0, 4 => 8, 5 => 7, 6 => 9, 7 => 6, 8 => 10, 9 => 5,
        10 => 11, 11 => 4, 12 => 12, 13 => 3, 14 => 13, 15 => 2, 16 => 14, 17 => 1, _ => 15,
    }
}

fn sub_lengths(v: &Vec<u8>, a: usize, b: usize) -> (r: Vec<u8>)
    requires a <= b <= v@.len(),
    ensures r@ == v@.subrange(a as int, b as int),
{
    let mut r: Vec<u8> = Vec::new();
    let mut i = a;
    while i < b
        invariant a <= i <= b <= v@.len(), r@ == v@.subrange(a as int, i as int),
        decreases b - i,
    {
        r.push(v[i]);
        proof { assert(r@ =~= v@.subrange(a as int, i + 1)); }
        i += 1;
    }
    r
}

/// Reading the code-length code lengths `i..hclen` (three bits each, in
/// `cl_order_table` order) into `cl` from the pending bits `p` (`rem` of
/// them): the lengths and the bits then pending.
pub open spec fn cl_read(p: int, rem: int, i: int, hclen: int, cl: Seq<u8>) -> Option<(Seq<u8>, int, int)>
    decreases hclen - i,
{
    if i >= hclen || i < 0 || i >= 19 {
        Some((cl, p, rem))
    } else if rem < 3 {
        None
    } else {
        cl_read(p / 8, rem - 3, i + 1, hclen, cl.update(cl_order_table()[i] as int, (p % 8) as u8))
    }
}

/// `lens` with positions `i` up to `i + rep` (cut at its end) set to `v`.
pub open spec fn filled(lens: Seq<u8>, i: int, rep: int, v: u8) -> Seq<u8> {
    Seq::new(lens.len(), |k: int| if i <= k < i + rep { v } else { lens[k] })
}

/// Reading code lengths `i..` of `lens` with the code-length code `tree`:
/// a symbol up to 15 is a length, 16 repeats the previous length 3 to 6
/// times, 17 and 18 write 3 to 10 and 11 to 138 zeros (cut at the end).
pub open spec fn lengths_read(tree: Seq<(u8, u16, u32)>, p: int, rem: int, i: int, lens: Seq<u8>)
    -> Option<(Seq<u8>, int, int)>
    decreases rem,
{
    if i >= lens.len() || i < 0 {
        Some((lens, p, rem))
    } else {
        match huffman_decode(tree, p, rem, 0, 0) {
            None => None,
            Some((sym, l)) => if l < 1 || l > rem {
                None
            } else {
                let p1 = p / two_pow(l);
                let r1 = rem - l;
                if sym <= 15 {
                    lengths_read(tree, p1, r1, i + 1, lens.update(i, sym as u8))
                } else if sym == 16 {
                    if r1 < 2 {
                        None
                    } else {
                        let v = if i > 0 { lens[i - 1] } else { 0u8 };
                        let rep = p1 % 4 + 3;
                        let i2 = if i + rep <= lens.len() { i + rep } else { lens.len() as int };
                        lengths_read(tree, p1 / 4, r1 - 2, i2, filled(lens, i, rep, v))
                    }
                } else if sym == 17 || sym == 18 {
                    let nb: int = if sym == 17 { 3 } else { 7 };
                    if r1 < nb {
                        None
                    } else {
                        let rep = p1 % two_pow(nb) + (if sym == 17 { 3int } else { 11int });
                        let i2 = if i + rep <= lens.len() { i + rep } else { lens.len() as int };
                        lengths_read(tree, p1 / two_pow(nb), r1 - nb, i2, filled(lens, i, rep, 0u8))
                    }
                } else {
                    None
                }
            },
        }
    }
}

/// Reading the header of a dynamic block from the pending bits `p` (`rem`
/// of them): the literal/length and distance code lengths and the bits
/// then pending (RFC 1951 §3.2.7).
#[verifier::opaque]
pub open spec fn dynamic_header(p: int, rem: int) -> Option<(Seq<u8>, Seq<u8>, int, int)> {
    if rem < 14 {
        None
    } else {
        let hlit = p % 32 + 257;
        let hdist = (p / 32) % 32 + 1;
        let hclen = (p / 1024) % 16 + 4;
        match cl_read(p / 16384, rem - 14, 0, hclen, Seq::new(19, |k: int| 0u8)) {
            None => None,
            Some((cl, p2, r2)) => match lengths_read(canonical_code(cl), p2, r2, 0, Seq::new((hlit + hdist) as nat, |k: int| 0u8)) {
                None => None,
                Some((lens, p3, r3)) => Some((lens.subrange(0, hlit), lens.subrange(hlit, hlit + hdist), p3, r3)),
            },
        }
    }
}

proof fn lemma_read_steps(p: int, a: int, b: int)
    requires p >= 0, a >= 0, b >= 0,
    ensures (p / two_pow(a)) / two_pow(b) == p / two_pow(a + b), p / two_pow(a) >= 0,
{
    lemma_two_pow_pos(a);
    lemma_two_pow_pos(b);
    lemma_two_pow_add(a, b);
    vstd::arithmetic::div_mod::lemma_div_denominator(p, two_pow(a), two_pow(b));
    vstd::arithmetic::div_mod::lemma_div_pos_is_pos(p, two_pow(a));
}

/// Reads the code lengths of a dynamic block and builds its two codes (see
/// `dynamic_header`).
#[verifier::spinoff_prover]
#[verifier::rlimit(60)]
fn read_dynamic_trees(reader: &mut BitReader) -> (r: Result<(HuffmanTree, HuffmanTree), String>)
    requires old(reader).wf(),
    ensures
        final(reader).wf(),
        final(reader).data@ == old(reader).data@,
        r is Ok ==> final(reader).remaining() < old(reader).remaining(),
        r is Ok ==> r->Ok_0.0.wf(288) && r->Ok_0.1.wf(32),
        match dynamic_header(old(reader).pending(), old(reader).remaining()) {
            Some((ll, dl, p, rm)) => r is Ok && r->Ok_0.0.entries@ == canonical_code(ll)
                && r->Ok_0.1.entries@ == canonical_code(dl)
                && final(reader).pending() == p && final(reader).remaining() == rm,
            None => r is Err,
        },
{
    let ghost p0 = reader.pending();
    let ghost rem0 = reader.remaining();
    proof { reveal_with_fuel(two_pow, 8); lemma_pending_nonneg(*reader); reveal(dynamic_header); }
    let h1 = match reader.read_bits(5) { Ok(v) => v, Err(e) => { return Err(e); } };
    let h2 = match reader.read_bits(5) { Ok(v) => v, Err(e) => { return Err(e); } };
    let h3 = match reader.read_bits(4) { Ok(v) => v, Err(e) => { return Err(e); } };
    proof {
        lemma_read_steps(p0, 5, 5);
        lemma_read_steps(p0, 10, 4);
        assert(two_pow(10) == 1024 && two_pow(14) == 16384) by { reveal_with_fuel(two_pow, 15); }
    }
    let hlit = h1 as usize + 257;
    let hdist = h2 as usize + 1;
    let hclen = h3 as usize + 4;
    let mut cl_lengths: Vec<u8> = vec![0u8; 19];
    let ghost cl0 = cl_lengths@;
    proof { assert(cl0 =~= Seq::new(19, |k: int| 0u8)); }
    let mut i: usize = 0;
    while i < hclen
        invariant
            i <= hclen <= 19,
            cl_lengths@.len() == 19,
            forall|k: int| 0 <= k < 19 ==> cl_lengths@[k] <= 15,
            reader.wf(),
            reader.data@ == old(reader).data@,
            reader.remaining() < old(reader).remaining(),
            reader.pending() >= 0,
            cl_read(reader.pending(), reader.remaining(), i as int, hclen as int, cl_lengths@)
                == cl_read(p0 / 16384, rem0 - 14, 0, hclen as int, cl0),
            p0 == old(reader).pending(), rem0 == old(reader).remaining(), rem0 >= 14, p0 >= 0,
            hlit == p0 % 32 + 257, hdist == (p0 / 32) % 32 + 1, hclen == (p0 / 1024) % 16 + 4,
            cl0 == Seq::new(19, |k: int| 0u8),
        decreases hclen - i,
    {
        proof { reveal_with_fuel(two_pow, 8); reveal(dynamic_header); }
        let ghost pp = reader.pending();
        let v = match reader.read_bits(3) {
            Ok(v) => v,
            Err(e) => { return Err(e); }
        };
        proof { vstd::arithmetic::div_mod::lemma_div_pos_is_pos(pp, 8); }
        cl_lengths.set(cl_order(i), v as u8);
        i += 1;
    }
    let ghost p2 = reader.pending();
    let ghost r2 = reader.remaining();
    let cl_tree = HuffmanTree::from_lengths(cl_lengths.as_slice());
    let total = hlit + hdist;
    let mut lengths: Vec<u8> = vec![0u8; total];
    let ghost lens0 = lengths@;
    proof {
        assert(lens0 =~= Seq::new(total as nat, |k: int| 0u8));
        assert(cl_read(p2, r2, hclen as int, hclen as int, cl_lengths@) == Some((cl_lengths@, p2, r2)));
    }
    let ghost tree = cl_tree.entries@;
    let mut i: usize = 0;
    while i < total
        invariant
            i <= total == hlit + hdist,
            257 <= hlit <= 288,
            1 <= hdist <= 32,
            lengths@.len() == total,
            forall|k: int| 0 <= k < total ==> lengths@[k] <= 15,
            cl_tree.wf(19),
            tree == cl_tree.entries@,
            reader.wf(),
            reader.data@ == old(reader).data@,
            reader.remaining() < old(reader).remaining(),
            reader.pending() >= 0,
            lengths_read(tree, reader.pending(), reader.remaining(), i as int, lengths@)
                == lengths_read(tree, p2, r2, 0, lens0),
            p0 == old(reader).pending(), rem0 == old(reader).remaining(), rem0 >= 14, p0 >= 0,
            hlit == p0 % 32 + 257, hdist == (p0 / 32) % 32 + 1, hclen == (p0 / 1024) % 16 + 4,
            cl0 == Seq::new(19, |k: int| 0u8),
            cl_read(p0 / 16384, rem0 - 14, 0, hclen as int, cl0) == Some((cl_lengths@, p2, r2)),
            tree == canonical_code(cl_lengths@),
            lens0 == Seq::new(total as nat, |k: int| 0u8),
        decreases reader.remaining(),
    {
        proof { reveal(dynamic_header); }
        let ghost pa = reader.pending();
        let ghost ra = reader.remaining();
        let ghost la = lengths@;
        let ghost ia = i as int;
        let sym = cl_tree.decode(reader)?;
        proof {
            let l = huffman_decode(tree, pa, ra, 0, 0)->Some_0.1;
            lemma_read_steps(pa, l, 0);
        }
        if sym <= 15 {
            lengths.set(i, sym as u8);
            i += 1;
        } else if sym == 16 {
            let ghost pb = reader.pending();
            proof { lemma_pending_nonneg(*reader); }
            let rb = match reader.read_bits(2) { Ok(x) => x, Err(e) => { return Err(e); } };
            proof { assert(two_pow(2) == 4) by { reveal_with_fuel(two_pow, 3); } vstd::arithmetic::div_mod::lemma_div_pos_is_pos(pb, 4); }
            let r = rb as usize + 3;
            let v = if i > 0 { lengths[i - 1] } else { 0 };
            let mut k: usize = 0;
            proof { assert(lengths@ =~= filled(la, ia, 0, v)); }
            while k < r
                invariant
                    k <= r,
                    i <= total,
                    v <= 15,
                    lengths@.len() == total,
                    la.len() == total,
                    forall|j: int| 0 <= j < total ==> lengths@[j] <= 15,
                    lengths@ == filled(la, ia, k as int, v),
                    i == (if ia + k <= total { ia + k } else { total as int }),
                decreases r - k,
            {
                if i < total {
                    lengths.set(i, v);
                    i += 1;
                }
                proof { assert(lengths@ =~= filled(la, ia, k + 1, v)); }
                k += 1;
            }
        } else if sym == 17 || sym == 18 {
            let ghost pb = reader.pending();
            proof { lemma_pending_nonneg(*reader); }
            let nb: u8 = if sym == 17 { 3 } else { 7 };
            let rb = match reader.read_bits(nb) { Ok(x) => x, Err(e) => { return Err(e); } };
            proof {
                assert(two_pow(3) == 8 && two_pow(7) == 128) by { reveal_with_fuel(two_pow, 8); }
                vstd::arithmetic::div_mod::lemma_div_pos_is_pos(pb, two_pow(nb as int));
            }
            let r = if sym == 17 { rb as usize + 3 } else { rb as usize + 11 };
            let mut k: usize = 0;
            proof { assert(lengths@ =~= filled(la, ia, 0, 0u8)); }
            while k < r
                invariant
                    k <= r,
                    i <= total,
                    lengths@.len() == total,
                    la.len() == total,
                    forall|j: int| 0 <= j < total ==> lengths@[j] <= 15,
                    lengths@ == filled(la, ia, k as int, 0u8),
                    i == (if ia + k <= total { ia + k } else { total as int }),
                decreases r - k,
            {
                if i < total {
                    lengths.set(i, 0);
                    i += 1;
                }
                proof { assert(lengths@ =~= filled(la, ia, k + 1, 0u8)); }
                k += 1;
            }
        } else {
            return Err(number_message("invalid cl sym ", sym as u64));
        }
    }
    proof {
        assert(lengths_read(tree, reader.pending(), reader.remaining(), i as int, lengths@)
            == Some((lengths@, reader.pending(), reader.remaining())));
    }
    let lit_lengths = sub_lengths(&lengths, 0, hlit);
    let dist_lengths = sub_lengths(&lengths, hlit, total);
    Ok((HuffmanTree::from_lengths(lit_lengths.as_slice()), HuffmanTree::from_lengths(dist_lengths.as_slice())))
}

/// Base lengths of the length symbols `257..=285` (RFC 1951 §3.2.5).
pub open spec fn length_base_table() -> Seq<u16> {
    seq![3u16, 4, 5, 6, 7, 8, 9, 10, 11, 13, 15, 17, 19, 23, 27, 31, 35, 43, 51, 59, 67, 83, 99, 115, 131, 163,
        195, 227, 258]
}

/// Base distances of the distance symbols `0..=29` (RFC 1951 §3.2.5).
pub open spec fn dist_base_table() -> Seq<u16> {
    seq![1u16, 2, 3, 4, 5, 7, 9, 13, 17, 25, 33, 49, 65, 97, 129, 193, 257, 385, 513, 769, 1025, 1537, 2049,
        3073, 4097, 6145, 8193, 12289, 16385, 24577]
}

/// Base length of a length symbol `257 + i`.
fn length_base(i: usize) -> (r: u16)
    requires i < 29,
    ensures r == length_base_table()[i as int], r as int == rfc1951_length_base(i as int), r <= 258,
{
    proof { lemma_length_codes_rfc1951(); }
    match i {
        0 => 3, 1 => 4, 2 => 5, 3 => 6, 4 => 7, 5 => 8, 6 => 9, 7 => 10, 8 => 11, 9 => 13,
        10 => 15, 11 => 17, 12 => 19, 13 => 23, 14 => 27, 15 => 31, 16 => 35, 17 => 43,
        18 => 51, 19 => 59, 20 => 67, 21 => 83, 22 => 99, 23 => 115, 24 => 131, 25 => 163,
        26 => 195, 27 => 227, _ => 258,
    }
}

/// Extra bits of a length symbol `257 + i`.
fn length_extra(i: usize) -> (r: u8)
    requires i < 29,
    ensures r as int == (if i < 8 || i == 28 { 0 } else { (i - 4) / 4 }), r as int == rfc1951_length_extra(i as int), r <= 5,
{
    if i < 8 { 0 } else if i < 28 { ((i - 4) / 4) as u8 } else { 0 }
}

/// Base distance of a distance symbol.
fn dist_base(i: usize) -> (r: u16)
    requires i < 30,
    ensures r == dist_base_table()[i as int], r as int == rfc1951_dist_base(i as int), 1 <= r,
{
    proof { lemma_dist_codes_rfc1951(); }
    match i {
        0 => 1, 1 => 2, 2 => 3, 3 => 4, 4 => 5, 5 => 7, 6 => 9, 7 => 13, 8 => 17, 9 => 25,
        10 => 33, 11 => 49, 12 => 65, 13 => 97, 14 => 129, 15 => 193, 16 => 257, 17 => 385,
        18 => 513, 19 => 769, 20 => 1025, 21 => 1537, 22 => 2049, 23 => 3073, 24 => 4097,
        25 => 6145, 26 => 8193, 27 => 12289, 28 => 16385, _ => 24577,
    }
}

/// Extra bits of a distance symbol.
fn dist_extra(i: usize) -> (r: u8)
    requires i < 30,
    ensures r as int == (if i < 4 { 0 } else { (i - 2) / 2 }), r as int == rfc1951_dist_extra(i as int), r <= 13,
{
    if i < 4 { 0 } else { ((i - 2) / 2) as u8 }
}

/// The base length of length symbol `257 + i` as RFC 1951 §3.2.5 lays the
/// code out: symbols 257 to 264 stand for the lengths 3 to 10, one each;
/// from 265 on, each run of four symbols spans twice what the run before
/// spanned; symbol 285 stands for the longest match, 258.
pub open spec fn rfc1951_length_base(i: int) -> int {
    if i < 8 { 3 + i } else if i < 28 { (4 + i % 4) * two_pow((i - 4) / 4) + 3 } else { 258 }
}

/// The extra bits of length symbol `257 + i` (RFC 1951 §3.2.5).
pub open spec fn rfc1951_length_extra(i: int) -> int {
    if i < 8 || i == 28 { 0 } else { (i - 4) / 4 }
}

/// The base distance of distance symbol `i` as RFC 1951 §3.2.5 lays the
/// code out: symbols 0 to 3 stand for the distances 1 to 4; from 4 on, each
/// pair of symbols spans twice what the pair before spanned.
pub open spec fn rfc1951_dist_base(i: int) -> int {
    if i < 4 { i + 1 } else { (2 + i % 2) * two_pow((i - 2) / 2) + 1 }
}

/// The extra bits of distance symbol `i` (RFC 1951 §3.2.5).
pub open spec fn rfc1951_dist_extra(i: int) -> int {
    if i < 4 { 0 } else { (i - 2) / 2 }
}

/// The length symbols `257..=285` decode to the lengths of RFC 1951: each
/// symbol's base length is the RFC's, the symbols' ranges (base length plus
/// what the extra bits add) follow each other without gap or overlap from 3
/// on, and symbol 285 alone stands for 258, one past the range of 284,
/// with no extra bits.
pub proof fn lemma_length_codes_rfc1951()
    ensures
        forall|i: int| 0 <= i < 29 ==> length_base_table()[i] as int == #[trigger] rfc1951_length_base(i),
        length_base_table()[0] == 3,
        forall|i: int| 0 <= i < 27 ==>
            length_base_table()[i + 1] as int == length_base_table()[i] as int + two_pow(#[trigger] rfc1951_length_extra(i)),
        length_base_table()[28] as int == length_base_table()[27] as int + two_pow(rfc1951_length_extra(27)) - 1,
        length_base_table()[28] == 258,
        rfc1951_length_extra(28) == 0,
{
    reveal_with_fuel(two_pow, 7);
    assert forall|i: int| 0 <= i < 29 implies length_base_table()[i] as int == #[trigger] rfc1951_length_base(i) by {
        reveal_with_fuel(two_pow, 7);
        assert(two_pow(1) == 2 && two_pow(2) == 4 && two_pow(3) == 8 && two_pow(4) == 16 && two_pow(5) == 32);
        if i < 8 {
        } else if i < 12 {
            assert(rfc1951_length_base(i) == (4 + i % 4) * 2 + 3);
        } else if i < 16 {
            assert(rfc1951_length_base(i) == (4 + i % 4) * 4 + 3);
        } else if i < 20 {
            assert(rfc1951_length_base(i) == (4 + i % 4) * 8 + 3);
        } else if i < 24 {
            assert(rfc1951_length_base(i) == (4 + i % 4) * 16 + 3);
        } else if i < 28 {
            assert(rfc1951_length_base(i) == (4 + i % 4) * 32 + 3);
        }
    }
    assert forall|i: int| 0 <= i < 27 implies
        length_base_table()[i + 1] as int == length_base_table()[i] as int + two_pow(#[trigger] rfc1951_length_extra(i)) by {
        reveal_with_fuel(two_pow, 7);
    }
}

/// The distance symbols `0..=29` decode to the distances of RFC 1951: each
/// symbol's base distance is the RFC's, and the symbols' ranges follow each
/// other without gap or overlap from 1 to 32768.
pub proof fn lemma_dist_codes_rfc1951()
    ensures
        forall|i: int| 0 <= i < 30 ==> dist_base_table()[i] as int == #[trigger] rfc1951_dist_base(i),
        dist_base_table()[0] == 1,
        forall|i: int| 0 <= i < 29 ==>
            dist_base_table()[i + 1] as int == dist_base_table()[i] as int + two_pow(#[trigger] rfc1951_dist_extra(i)),
        dist_base_table()[29] as int + two_pow(rfc1951_dist_extra(29)) - 1 == 32768,
{
    reveal_with_fuel(two_pow, 15);
    assert forall|i: int| 0 <= i < 30 implies dist_base_table()[i] as int == #[trigger] rfc1951_dist_base(i) by {
        reveal_with_fuel(two_pow, 15);
        if i < 4 {
        } else if i < 6 {
            assert(two_pow(1) == 2);
            assert(rfc1951_dist_base(i) == (2 + i % 2) * 2 + 1);
        } else if i < 8 {
            assert(two_pow(2) == 4);
            assert(rfc1951_dist_base(i) == (2 + i % 2) * 4 + 1);
        } else if i < 10 {
            assert(two_pow(3) == 8);
            assert(rfc1951_dist_base(i) == (2 + i % 2) * 8 + 1);
        } else if i < 12 {
            assert(two_pow(4) == 16);
            assert(rfc1951_dist_base(i) == (2 + i % 2) * 16 + 1);
        } else if i < 14 {
            assert(two_pow(5) == 32);
            assert(rfc1951_dist_base(i) == (2 + i % 2) * 32 + 1);
        } else if i < 16 {
            assert(two_pow(6) == 64);
            assert(rfc1951_dist_base(i) == (2 + i % 2) * 64 + 1);
        } else if i < 18 {
            assert(two_pow(7) == 128);
            assert(rfc1951_dist_base(i) == (2 + i % 2) * 128 + 1);
        } else if i < 20 {
            assert(two_pow(8) == 256);
            assert(rfc1951_dist_base(i) == (2 + i % 2) * 256 + 1);
        } else if i < 22 {
            assert(two_pow(9) == 512);
            assert(rfc1951_dist_base(i) == (2 + i % 2) * 512 + 1);
        } else if i < 24 {
            assert(two_pow(10) == 1024);
            assert(rfc1951_dist_base(i) == (2 + i % 2) * 1024 + 1);
        } else if i < 26 {
            assert(two_pow(11) == 2048);
            assert(rfc1951_dist_base(i) == (2 + i % 2) * 2048 + 1);
        } else if i < 28 {
            assert(two_pow(12) == 4096);
            assert(rfc1951_dist_base(i) == (2 + i % 2) * 4096 + 1);
        } else if i < 30 {
            assert(two_pow(13) == 8192);
            assert(rfc1951_dist_base(i) == (2 + i % 2) * 8192 + 1);
        }
    }
    assert forall|i: int| 0 <= i < 29 implies
        dist_base_table()[i + 1] as int == dist_base_table()[i] as int + two_pow(#[trigger] rfc1951_dist_extra(i)) by {
        reveal_with_fuel(two_pow, 15);
    }
}

/// The bytes a back reference copies: `length` bytes from `d` bytes back,
/// the copy overlapping itself when `length > d`.
pub open spec fn back_copy(out: Seq<u8>, d: int, length: int) -> Seq<u8> {
    Seq::new(length as nat, |j: int| out[out.len() - d + j % d])
}

/// Decoding one Huffman-coded block with the literal/length code `ll` and
/// the distance code `dist` from the pending bits `p` (`rem` of them) onto
/// `out`: the output, the bits left pending and their number when the block
/// ends with symbol 256; `None` when the bits do not decode or a reference
/// reaches before the output.
#[verifier::opaque]
pub open spec fn block_spec(ll: Seq<(u8, u16, u32)>, dist: Seq<(u8, u16, u32)>, p: int, rem: int, out: Seq<u8>)
    -> Option<(Seq<u8>, int, int)>
    decreases rem,
{
    match huffman_decode(ll, p, rem, 0, 0) {
        None => None,
        Some((sym, l)) => if l < 1 || l > rem {
            None
        } else {
            let p1 = p / two_pow(l);
            let r1 = rem - l;
            if sym <= 255 {
                block_spec(ll, dist, p1, r1, out.push(sym as u8))
            } else if sym == 256 {
                Some((out, p1, r1))
            } else if sym <= 285 {
                let li = sym - 257;
                let eb = rfc1951_length_extra(li);
                if eb > r1 {
                    None
                } else {
                    let length = length_base_table()[li] + p1 % two_pow(eb);
                    let p2 = p1 / two_pow(eb);
                    let r2 = r1 - eb;
                    match huffman_decode(dist, p2, r2, 0, 0) {
                        None => None,
                        Some((di, l2)) => if di >= 30 || l2 < 0 || l2 > r2 {
                            None
                        } else {
                            let db = rfc1951_dist_extra(di as int);
                            let p3 = p2 / two_pow(l2);
                            let r3 = r2 - l2;
                            if db > r3 {
                                None
                            } else {
                                let d = dist_base_table()[di as int] + p3 % two_pow(db);
                                if d > out.len() {
                                    None
                                } else {
                                    block_spec(ll, dist, p3 / two_pow(db), r3 - db, out + back_copy(out, d, length))
                                }
                            }
                        },
                    }
                }
            } else {
                None
            }
        },
    }
}

/// Appends the `length` bytes that start `d` bytes before the end of `out`
/// (see `back_copy`).
fn copy_back(out: &mut Vec<u8>, d: usize, length: usize)
    requires 1 <= d <= old(out)@.len(),
    ensures final(out)@ == old(out)@ + back_copy(old(out)@, d as int, length as int),
{
    let start = out.len() - d;
    let ghost base = out@;
    let mut j: usize = 0;
    while j < length
        invariant
            j <= length,
            d >= 1,
            start + d == base.len(),
            out@ == base + back_copy(base, d as int, length as int).take(j as int),
        decreases length - j,
    {
        assert(j % d < d) by (nonlinear_arith)
            requires d >= 1;
        assert(start + j % d < out.len());
        let b = out[start + j % d];
        out.push(b);
        proof {
            assert(out@ =~= base + back_copy(base, d as int, length as int).take(j + 1));
        }
        j += 1;
    }
    proof { assert(back_copy(base, d as int, length as int).take(length as int) =~= back_copy(base, d as int, length as int)); }
}

/// Decodes one Huffman-coded block onto `out` (see `block_spec`).
#[verifier::spinoff_prover]
#[verifier::rlimit(60)]
fn decode_huffman_block(reader: &mut BitReader, ll: &HuffmanTree, dist: &HuffmanTree, out: &mut Vec<u8>)
    -> (r: Result<(), String>)
    requires old(reader).wf(), ll.wf(288), dist.wf(32),
    ensures
        final(reader).wf(),
        final(reader).data@ == old(reader).data@,
        r is Ok ==> final(reader).remaining() < old(reader).remaining(),
        match block_spec(ll.entries@, dist.entries@, old(reader).pending(), old(reader).remaining(), old(out)@) {
            Some((o, p, rm)) => r is Ok && final(out)@ == o && final(reader).pending() == p && final(reader).remaining() == rm,
            None => r is Err,
        },
{
    proof { reveal(block_spec); }
    let ghost goal = block_spec(ll.entries@, dist.entries@, reader.pending(), reader.remaining(), out@);
    loop
        invariant
            reader.wf(),
            reader.data@ == old(reader).data@,
            reader.remaining() <= old(reader).remaining(),
            ll.wf(288), dist.wf(32),
            goal == block_spec(ll.entries@, dist.entries@, old(reader).pending(), old(reader).remaining(), old(out)@),
            goal == block_spec(ll.entries@, dist.entries@, reader.pending(), reader.remaining(), out@),
        decreases reader.remaining(),
    {
        proof { reveal(block_spec); }
        let ghost p0 = reader.pending();
        let ghost r0 = reader.remaining();
        let ghost o0 = out@;
        let sym = ll.decode(reader)?;
        proof {
            assert(huffman_decode(ll.entries@, p0, r0, 0, 0) is Some);
            let l = huffman_decode(ll.entries@, p0, r0, 0, 0)->Some_0.1;
            assert(reader.remaining() == r0 - l && reader.pending() == p0 / two_pow(l));
        }
        if sym <= 255 {
            out.push(sym as u8);
        } else if sym == 256 {
            return Ok(());
        } else if sym <= 285 {
            let li = (sym - 257) as usize;
            let eb = length_extra(li);
            let extra = reader.read_bits(eb)?;
            proof { lemma_two_pow_le(eb as int); }
            let length = length_base(li) as usize + extra as usize;
            let ghost p2 = reader.pending();
            let ghost r2 = reader.remaining();
            let di0 = dist.decode(reader)?;
            let di = di0 as usize;
            if di >= 30 {
                return Err(number_message("invalid dist sym ", di as u64));
            }
            let db = dist_extra(di);
            let dextra = reader.read_bits(db)?;
            proof { lemma_two_pow_le(db as int); }
            let d = dist_base(di) as usize + dextra as usize;
            if out.len().checked_sub(d).is_none() {
                let mut m = number_message("dist ", d as u64);
                crate::text::push_str(&mut m, " > output");
                return Err(m);
            }
            copy_back(out, d, length);
        } else {
            return Err(number_message("invalid ll sym ", sym as u64));
        }
    }
}

/// The `n` bytes a stored block copies from the pending bits `p`.
pub open spec fn stored_bytes(p: int, n: int) -> Seq<u8> {
    Seq::new(n as nat, |j: int| ((p / two_pow(8 * j)) % 256) as u8)
}

/// A stored block from the pending bits `p` (`rem` of them): after the
/// bits up to the byte boundary, `LEN` and its complement `NLEN`, then
/// `LEN` bytes; the output and the bits then pending.
#[verifier::opaque]
pub open spec fn stored_block(p: int, rem: int, out: Seq<u8>) -> Option<(Seq<u8>, int, int)> {
    let p1 = p / two_pow(rem % 8);
    let r1 = rem - rem % 8;
    if r1 < 32 {
        None
    } else {
        let len = p1 % 65536;
        let nlen = (p1 / 65536) % 65536;
        let p2 = p1 / two_pow(32);
        let r2 = r1 - 32;
        if len != 65535 - nlen || r2 < 8 * len {
            None
        } else {
            Some((out + stored_bytes(p2, len), p2 / two_pow(8 * len), r2 - 8 * len))
        }
    }
}

/// One block of type `btype` (stored, fixed codes, dynamic codes) from
/// the pending bits `p` (`rem` of them) onto `out`: the output and the bits
/// then pending.
pub open spec fn block_at(btype: int, p: int, rem: int, out: Seq<u8>) -> Option<(Seq<u8>, int, int)> {
    if btype == 0 {
        stored_block(p, rem, out)
    } else if btype == 1 {
        block_spec(canonical_code(fixed_ll_lengths()), canonical_code(fixed_dist_lengths()), p, rem, out)
    } else if btype == 2 {
        match dynamic_header(p, rem) {
            None => None,
            Some((ll, dl, p2, r2)) => block_spec(canonical_code(ll), canonical_code(dl), p2, r2, out),
        }
    } else {
        None
    }
}

/// Inflating blocks from the pending bits `p` (`rem` of them) onto `out`:
/// each block's header bit `BFINAL` and two bits `BTYPE` (stored, fixed
/// codes, dynamic codes), until a block marked final; `None` when the bits
/// do not form such a stream (RFC 1951 §3.2.3).
pub open spec fn inflate_spec(p: int, rem: int, out: Seq<u8>) -> Option<Seq<u8>>
    decreases rem,
{
    if rem < 3 {
        None
    } else {
        let bfinal = p % 2;
        let btype = (p / 2) % 4;
        let p1 = p / 8;
        let r1 = rem - 3;
        match block_at(btype, p1, r1, out) {
            None => None,
            Some((o, p2, r2)) => if bfinal == 1 {
                Some(o)
            } else if 0 <= r2 < rem {
                inflate_spec(p2, r2, o)
            } else {
                None
            },
        }
    }
}

proof fn lemma_aligned_rem(r: BitReader)
    requires r.wf(),
    ensures r.remaining() % 8 == r.bits_in_buf % 8,
{
    let k = r.data@.len() - r.byte_pos;
    let b = r.bits_in_buf as int;
    assert((k * 8 + b) % 8 == b % 8) by (nonlinear_arith) requires k >= 0, b >= 0;
}

/// Reads a stored block onto `out` (see `stored_block`).
#[verifier::spinoff_prover]
#[verifier::rlimit(60)]
fn read_stored_block(reader: &mut BitReader, out: &mut Vec<u8>) -> (r: Result<(), String>)
    requires old(reader).wf(),
    ensures
        final(reader).wf(),
        final(reader).data@ == old(reader).data@,
        r is Ok ==> final(reader).remaining() <= old(reader).remaining(),
        match stored_block(old(reader).pending(), old(reader).remaining(), old(out)@) {
            Some((o, p, rm)) => r is Ok && final(out)@ == o && final(reader).pending() == p && final(reader).remaining() == rm,
            None => r is Err,
        },
{
    proof { lemma_pending_nonneg(*reader); reveal(stored_block); }
    reader.align_to_byte();
    let ghost pa = reader.pending();
    proof { lemma_aligned_rem(*reader); lemma_pending_nonneg(*reader); }
    let len = reader.read_u16_le()?;
    proof { lemma_aligned_rem(*reader); lemma_pending_nonneg(*reader); }
    let nlen = reader.read_u16_le()?;
    proof {
        lemma_read_steps(pa, 16, 16);
        assert(two_pow(16) == 65536) by { reveal_with_fuel(two_pow, 17); }
        assert(!nlen == 65535 - nlen) by (bit_vector);
    }
    if len != !nlen {
        return Err("LEN/NLEN mismatch".to_owned());
    }
    let ghost p2 = reader.pending();
    let ghost r2 = reader.remaining();
    let ghost o0 = out@;
    proof {
        assert(two_pow(0) == 1);
        assert(stored_bytes(p2, 0) =~= Seq::<u8>::empty());
        assert(o0 + stored_bytes(p2, 0) =~= o0);
        lemma_pending_nonneg(*reader);
    }
    let mut k: u16 = 0;
    while k < len
        invariant
            reader.wf(), reader.data@ == old(reader).data@, k <= len,
            reader.remaining() <= old(reader).remaining(),
            reader.remaining() == r2 - 8 * k,
            reader.remaining() % 8 == 0,
            p2 >= 0,
            reader.pending() == p2 / two_pow(8 * k),
            out@ == o0 + stored_bytes(p2, k as int),
            stored_block(old(reader).pending(), old(reader).remaining(), old(out)@) == (if r2 < 8 * len { None } else {
                Some((o0 + stored_bytes(p2, len as int), p2 / two_pow(8 * len), r2 - 8 * len)) }),
        decreases len - k,
    {
        let ghost s0 = *reader;
        proof { lemma_aligned_rem(s0); lemma_aligned_byte(s0); }
        let b = reader.read_byte()?;
        proof {
            if s0.bits_in_buf < 8 {
                assert(two_pow(0) == 1);
                assert(reader.bit_buf == 0 && reader.bits_in_buf == 0);
            }
            assert(b as int == s0.pending() % 256 && reader.pending() == s0.pending() / 256);
            lemma_read_steps(p2, 8 * k, 8);
            assert(two_pow(8) == 256) by { reveal_with_fuel(two_pow, 9); }
            lemma_aligned_rem(*reader);
        }
        let ghost before = out@;
        out.push(b);
        proof {
            assert(out@ =~= o0 + stored_bytes(p2, k + 1)) by {
                assert(before == o0 + stored_bytes(p2, k as int));
            }
        }
        k += 1;
    }
    Ok(())
}

/// Inflates a raw deflate stream (see `inflate_spec`).
pub fn inflate(data: &[u8]) -> (r: Result<Vec<u8>, String>)
    ensures
        match inflate_spec(le_value(data@), (data@.len() * 8) as int, Seq::empty()) {
            Some(o) => r is Ok && r->Ok_0@ == o,
            None => r is Err,
        },
{
    let mut reader = BitReader::new(data);
    let mut output: Vec<u8> = Vec::new();
    let ghost goal = inflate_spec(le_value(data@), (data@.len() * 8) as int, Seq::empty());
    loop
        invariant_except_break
            reader.wf(), reader.data@ == data@,
            goal == inflate_spec(le_value(data@), (data@.len() * 8) as int, Seq::empty()),
            goal == inflate_spec(reader.pending(), reader.remaining(), output@),
        ensures
            goal == Some(output@),
        decreases reader.remaining(),
    {
        let ghost p0 = reader.pending();
        let ghost r0 = reader.remaining();
        proof { lemma_pending_nonneg(reader); reveal_with_fuel(two_pow, 4); }
        let bfinal = reader.read_bits(1)?;
        let btype = reader.read_bits(2)?;
        proof { lemma_read_steps(p0, 1, 2); }
        if btype == 0 {
            read_stored_block(&mut reader, &mut output)?;
        } else if btype == 1 {
            let (ll, d) = fixed_huffman_trees();
            decode_huffman_block(&mut reader, &ll, &d, &mut output)?;
        } else if btype == 2 {
            let (ll, d) = read_dynamic_trees(&mut reader)?;
            decode_huffman_block(&mut reader, &ll, &d, &mut output)?;
        } else {
            return Err("reserved BTYPE 11".to_owned());
        }
        if bfinal == 1 {
            break;
        }
    }
    Ok(output)
}

/// A message followed by a number.
fn number_message(prefix: &str, n: u64) -> (r: String)
    ensures r@ == prefix@ + crate::text::digits_text(n as nat),
{
    let mut m = String::new();
    crate::text::push_str(&mut m, prefix);
    crate::text::push_digits(&mut m, n);
    m
}

proof fn lemma_le_value_concat(a: Seq<u8>, b: Seq<u8>)
    ensures le_value(a + b) == le_value(a) + two_pow(8 * (a.len() as int)) * le_value(b),
    decreases a.len(),
{
    if a.len() == 0 {
        assert(a + b =~= b);
        assert(two_pow(0) == 1);
    } else {
        lemma_le_value_concat(a.drop_first(), b);
        assert((a + b).drop_first() =~= a.drop_first() + b);
        lemma_two_pow_add(8, 8 * (a.drop_first().len() as int));
        assert(two_pow(8) == 256) by { reveal_with_fuel(two_pow, 9); }
        let t = two_pow(8 * (a.drop_first().len() as int));
        assert(256 * (le_value(a.drop_first()) + t * le_value(b))
            == 256 * le_value(a.drop_first()) + (256 * t) * le_value(b)) by (nonlinear_arith);
    }
}

proof fn lemma_le_value_bound(s: Seq<u8>)
    ensures 0 <= le_value(s) < two_pow(8 * (s.len() as int)),
    decreases s.len(),
{
    if s.len() == 0 {
        assert(two_pow(0) == 1);
    } else {
        lemma_le_value_bound(s.drop_first());
        lemma_two_pow_add(8, 8 * (s.drop_first().len() as int));
        assert(two_pow(8) == 256) by { reveal_with_fuel(two_pow, 9); }
        let t = two_pow(8 * (s.drop_first().len() as int));
        let v = le_value(s.drop_first());
        assert(s[0] + 256 * v < 256 * t) by (nonlinear_arith) requires v < t, 0 <= s[0] < 256, v >= 0;
    }
}

/// The pending bits of a run of bytes give the bytes back, byte by byte.
proof fn lemma_stored_bytes_of(b: Seq<u8>)
    ensures stored_bytes(le_value(b), b.len() as int) == b,
{
    assert forall|j: int| 0 <= j < b.len() implies ((le_value(b) / two_pow(8 * j)) % 256) as u8 == b[j] by {
        let lo = b.take(j);
        let hi = b.skip(j);
        assert(lo + hi =~= b);
        lemma_le_value_concat(lo, hi);
        lemma_le_value_bound(lo);
        lemma_le_value_bound(hi.drop_first());
        lemma_two_pow_pos(8 * j);
        let m = two_pow(8 * j);
        assert(lo.len() == j);
        assert(le_value(b) == le_value(lo) + m * le_value(hi));
        assert(0 <= le_value(lo) < m);
        assert(le_value(b) == le_value(hi) * m + le_value(lo)) by (nonlinear_arith)
            requires le_value(b) == le_value(lo) + m * le_value(hi);
        vstd::arithmetic::div_mod::lemma_fundamental_div_mod_converse(le_value(b), m, le_value(hi), le_value(lo));
        assert(le_value(hi) == hi[0] + 256 * le_value(hi.drop_first()));
        lemma_split_div(hi[0] as int, 256, le_value(hi.drop_first()));
    }
    assert(stored_bytes(le_value(b), b.len() as int) =~= b);
}

/// A deflate stream of one final stored block holding `b`: the header bits
/// (`BFINAL` set, `BTYPE` 0) padded to a byte, `LEN` and its complement
/// `NLEN` (little-endian), then the bytes themselves (RFC 1951 §3.2.4).
pub open spec fn stored_deflate(b: Seq<u8>) -> Seq<u8> {
    let n = b.len() as int;
    let c = 65535 - n;
    seq![1u8, (n % 256) as u8, (n / 256) as u8, (c % 256) as u8, (c / 256) as u8] + b
}

/// Inflating a stream of one final stored block gives back the bytes the
/// block stores: any run of at most 65535 bytes, written as a stored
/// block, inflates to itself.
pub proof fn lemma_inflate_stored_round_trip(b: Seq<u8>)
    requires b.len() <= 65535,
    ensures inflate_spec(le_value(stored_deflate(b)), 8 * (stored_deflate(b).len() as int), Seq::empty()) == Some(b),
{
    let n = b.len() as int;
    let c = 65535 - n;
    let s = stored_deflate(b);
    let h = seq![(n % 256) as u8, (n / 256) as u8, (c % 256) as u8, (c / 256) as u8];
    assert(s.drop_first() =~= h + b);
    let lb = le_value(b);
    lemma_le_value_bound(b);
    lemma_le_value_concat(h, b);
    let x = le_value(h + b);
    // le_value of the four header bytes
    assert(h.drop_first().drop_first().drop_first().drop_first().len() == 0);
    assert(le_value(h) == (n % 256) + 256 * ((n / 256) + 256 * ((c % 256) + 256 * (c / 256)))) by {
        reveal_with_fuel(le_value, 5);
    }
    assert(le_value(h) == n + 65536 * c);
    assert(two_pow(32) == 65536 * 65536) by { reveal_with_fuel(two_pow, 33); }
    assert(x == n + 65536 * (c + 65536 * lb)) by (nonlinear_arith)
        requires x == le_value(h) + two_pow(8 * (h.len() as int)) * lb, le_value(h) == n + 65536 * c,
            two_pow(32) == 65536 * 65536, h.len() == 4;
    let p = le_value(s);
    assert(p == 1 + 256 * x);
    lemma_split_div(1, 2, 128 * x);
    assert(p % 2 == 1 && p / 2 == 128 * x);
    lemma_split_div(0, 4, 32 * x);
    assert((p / 2) % 4 == 0);
    lemma_split_div(1, 8, 32 * x);
    assert(p / 8 == 32 * x);
    let rem = 8 * (s.len() as int);
    assert(rem == 8 * (5 + n));
    let r1 = rem - 3;
    lemma_split_div(5, 8, 4 + n);
    assert(r1 % 8 == 5);
    assert(two_pow(5) == 32) by { reveal_with_fuel(two_pow, 6); }
    lemma_split_div(0, 32, x);
    assert((32 * x) / two_pow(r1 % 8) == x);
    lemma_split_div(n, 65536, c + 65536 * lb);
    assert(x % 65536 == n && x / 65536 == c + 65536 * lb);
    lemma_split_div(c, 65536, lb);
    assert((x / 65536) % 65536 == c);
    assert(x == (n + 65536 * c) + (65536 * 65536) * lb) by (nonlinear_arith)
        requires x == n + 65536 * (c + 65536 * lb);
    lemma_split_div(n + 65536 * c, 4294967296int, lb);
    assert(x / two_pow(32) == lb);
    lemma_stored_bytes_of(b);
    reveal(stored_block);
    assert(Seq::<u8>::empty() + stored_bytes(lb, n) =~= b);
    assert(stored_block(32 * x, r1, Seq::empty()) is Some);
    assert(stored_block(32 * x, r1, Seq::empty())->Some_0.0 == b);
}

} // verus!

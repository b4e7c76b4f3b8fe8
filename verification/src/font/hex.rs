//! Hexadecimal numbers as `u32::from_str_radix(.., 16)` reads them.

use vstd::prelude::*;
use crate::parser::lexer::{hex_byte, hex_digit, hex_val, is_hex};

verus! {

/// Value of a run of hexadecimal digits.
pub open spec fn hex_value(s: Seq<u8>) -> int
    decreases s.len(),
{
    if s.len() == 0 {
        0
    } else {
        hex_value(s.drop_last()) * 16 + hex_val(s.last())
    }
}

pub open spec fn all_hex(s: Seq<u8>) -> bool {
    forall|i: int| 0 <= i < s.len() ==> is_hex(s[i])
}

/// What `u32::from_str_radix(s, 16)` gives: an optional `+`, then at least
/// one hexadecimal digit, and a value that fits in 32 bits.
pub open spec fn radix16(s: Seq<u8>) -> Option<u32> {
    let d = if s.len() > 0 && s[0] == 0x2b { s.drop_first() } else { s };
    if d.len() > 0 && all_hex(d) && hex_value(d) <= u32::MAX {
        Some(hex_value(d) as u32)
    } else {
        None
    }
}

proof fn lemma_hex_value_grows(s: Seq<u8>, j: int)
    requires 0 <= j <= s.len(),
    ensures hex_value(s.take(j)) <= hex_value(s), 0 <= hex_value(s.take(j)),
    decreases s.len(),
{
    if s.len() == 0 {
        assert(s.take(j) =~= s);
    } else if j == s.len() {
        assert(s.take(j) =~= s);
        lemma_hex_value_grows(s.drop_last(), j - 1);
    } else {
        lemma_hex_value_grows(s.drop_last(), j);
        assert(s.drop_last().take(j) =~= s.take(j));
        lemma_hex_value_grows(s.drop_last(), 0);
    }
}

/// Parses `s` as `u32::from_str_radix(s, 16)` does.
pub fn parse_radix16(s: &[u8]) -> (r: Option<u32>)
    ensures r == radix16(s@),
{
    let st: usize = if s.len() > 0 && s[0] == 0x2b { 1 } else { 0 };
    let ghost d = if s@.len() > 0 && s@[0] == 0x2b { s@.drop_first() } else { s@ };
    assert(d =~= s@.subrange(st as int, s@.len() as int));
    if st == s.len() {
        return None;
    }
    let mut acc: u64 = 0;
    let mut i: usize = st;
    while i < s.len()
        invariant
            st <= i <= s.len(),
            d =~= s@.subrange(st as int, s@.len() as int),
            d == (if s@.len() > 0 && s@[0] == 0x2b { s@.drop_first() } else { s@ }),
            d.len() > 0,
            acc == hex_value(d.take(i - st)),
            acc <= u32::MAX,
            forall|k: int| 0 <= k < i - st ==> is_hex(d[k]),
        decreases s.len() - i,
    {
        if !hex_byte(s[i]) {
            assert(!is_hex(d[i - st]));
            return None;
        }
        let v = hex_digit(s[i]);
        acc = acc * 16 + v as u64;
        proof {
            assert(d.take(i - st + 1).drop_last() =~= d.take(i - st));
        }
        if acc > 0xffff_ffff {
            proof {
                lemma_hex_value_grows(d, i - st + 1);
                if all_hex(d) {
                    assert(hex_value(d) > u32::MAX);
                }
            }
            return None;
        }
        i += 1;
    }
    proof { assert(d.take(d.len() as int) =~= d); }
    Some(acc as u32)
}

} // verus!

//! Number text and white space as std's string parsing sees them: unsigned
//! decimal text with an optional `+`, and the white space of `str::trim` and
//! `str::split_whitespace`, read directly from bytes.

use vstd::prelude::*;
use super::lexer::{is_digit, digits_value, lemma_digits_value_mono, lemma_digits_value_nonneg};

verus! {

pub open spec fn all_digits(s: Seq<u8>) -> bool {
    forall|k: int| 0 <= k < s.len() ==> is_digit(#[trigger] s[k])
}

/// The value of unsigned decimal text (an optional `+`, then at least one
/// digit and nothing else) when it is at most `max`.
pub open spec fn unsigned_value(t: Seq<u8>, max: int) -> Option<int> {
    let d = if t.len() > 0 && t[0] == 0x2b { t.subrange(1, t.len() as int) } else { t };
    if d.len() == 0 || !all_digits(d) || digits_value(d) > max {
        None
    } else {
        Some(digits_value(d))
    }
}

/// Parses unsigned decimal text the way `str::parse` does for an unsigned
/// integer type whose largest value is `max`.
pub fn parse_unsigned(t: &[u8], max: u64) -> (r: Option<u64>)
    ensures
        match unsigned_value(t@, max as int) {
            Some(v) => r == Some(v as u64),
            None => r is None,
        },
        r is Some ==> unsigned_value(t@, max as int) == Some(r->Some_0 as int),
{
    let start: usize = if t.len() > 0 && t[0] == 0x2b { 1 } else { 0 };
    let ghost d = t@.subrange(start as int, t@.len() as int);
    proof {
        if start == 0 { assert(d == t@); }
    }
    if start >= t.len() {
        return None;
    }
    let mut v: u64 = 0;
    let mut i: usize = start;
    while i < t.len()
        invariant
            start <= i <= t@.len(),
            start < t@.len(),
            d == t@.subrange(start as int, t@.len() as int),
            start == (if t@.len() > 0 && t@[0] == 0x2b { 1int } else { 0int }),
            all_digits(t@.subrange(start as int, i as int)),
            v as int == digits_value(t@.subrange(start as int, i as int)),
            v <= max,
        decreases t.len() - i,
    {
        let b = t[i];
        if !(0x30 <= b && b <= 0x39) {
            proof { assert(d[i - start] == b); assert(!is_digit(d[i - start])); }
            return None;
        }
        proof {
            assert(t@.subrange(start as int, i + 1).drop_last() == t@.subrange(start as int, i as int));
            assert(all_digits(t@.subrange(start as int, i + 1)));
        }
        let dg = (b - 0x30) as u64;
        if dg > max || v > (max - dg) / 10 {
            proof {
                assert(v * 10 + dg > max) by (nonlinear_arith)
                    requires dg > max || v > (max - dg) / 10, v >= 0;
                let rest = t@.subrange(start as int, t@.len() as int);
                assert(rest.subrange(0, i + 1 - start) == t@.subrange(start as int, i + 1));
                assert(digits_value(t@.subrange(start as int, i + 1)) == v * 10 + dg);
                if all_digits(rest) {
                    lemma_digits_value_mono(rest, i + 1 - start);
                    assert(digits_value(rest) > max);
                }
                assert(rest == d);
                if start == 0 { assert(d =~= t@); }
            }
            return None;
        }
        proof {
            assert(v * 10 + dg <= max) by (nonlinear_arith)
                requires v <= (max - dg) / 10, dg <= max;
        }
        v = v * 10 + dg;
        i += 1;
    }
    Some(v)
}

// ---------------------------------------------------------------------------
// White space as `char::is_whitespace` sees it, in UTF-8
// ---------------------------------------------------------------------------

pub open spec fn is_ascii_ws(b: u8) -> bool {
    (0x09 <= b <= 0x0d) || b == 0x20
}

/// Length of the white-space character that starts at `i`, or 0.
pub open spec fn ws_len_at(s: Seq<u8>, i: int) -> int {
    if i < 0 || i >= s.len() {
        0
    } else if is_ascii_ws(s[i]) {
        1
    } else if i + 1 < s.len() && s[i] == 0xc2 && (s[i + 1] == 0x85 || s[i + 1] == 0xa0) {
        2
    } else if i + 2 < s.len() && (
        (s[i] == 0xe1 && s[i + 1] == 0x9a && s[i + 2] == 0x80)
        || (s[i] == 0xe2 && s[i + 1] == 0x80 && ((0x80 <= s[i + 2] <= 0x8a) || s[i + 2] == 0xa8
            || s[i + 2] == 0xa9 || s[i + 2] == 0xaf))
        || (s[i] == 0xe2 && s[i + 1] == 0x81 && s[i + 2] == 0x9f)
        || (s[i] == 0xe3 && s[i + 1] == 0x80 && s[i + 2] == 0x80)) {
        3
    } else {
        0
    }
}

/// Length of the white-space character that ends just before `j`, or 0.
pub open spec fn ws_len_before(s: Seq<u8>, j: int) -> int {
    if j >= 1 && j <= s.len() && is_ascii_ws(s[j - 1]) {
        1
    } else if j >= 2 && j <= s.len() && ws_len_at(s, j - 2) == 2 {
        2
    } else if j >= 3 && j <= s.len() && ws_len_at(s, j - 3) == 3 {
        3
    } else {
        0
    }
}

pub fn ws_len(s: &[u8], i: usize) -> (r: usize)
    ensures r == ws_len_at(s@, i as int), r <= 3, r > 0 ==> i + r <= s@.len(),
{
    if i >= s.len() {
        return 0;
    }
    let b = s[i];
    if (0x09 <= b && b <= 0x0d) || b == 0x20 {
        return 1;
    }
    if i + 1 < s.len() && b == 0xc2 && (s[i + 1] == 0x85 || s[i + 1] == 0xa0) {
        return 2;
    }
    if s.len() - i > 2 {
        let b1 = s[i + 1];
        let b2 = s[i + 2];
        if (b == 0xe1 && b1 == 0x9a && b2 == 0x80)
            || (b == 0xe2 && b1 == 0x80 && ((0x80 <= b2 && b2 <= 0x8a) || b2 == 0xa8 || b2 == 0xa9 || b2 == 0xaf))
            || (b == 0xe2 && b1 == 0x81 && b2 == 0x9f)
            || (b == 0xe3 && b1 == 0x80 && b2 == 0x80) {
            return 3;
        }
    }
    0
}

pub fn ws_len_end(s: &[u8], j: usize) -> (r: usize)
    ensures r == ws_len_before(s@, j as int), r <= 3,
{
    if j >= 1 && j <= s.len() && ((0x09 <= s[j - 1] && s[j - 1] <= 0x0d) || s[j - 1] == 0x20) {
        1
    } else if j >= 2 && j <= s.len() && ws_len(s, j - 2) == 2 {
        2
    } else if j >= 3 && j <= s.len() && ws_len(s, j - 3) == 3 {
        3
    } else {
        0
    }
}

/// Start of `s[a..b]` after leading white space.
pub open spec fn trim_start_from(s: Seq<u8>, a: int, b: int) -> int
    decreases b - a,
{
    if a >= b || ws_len_at(s, a) == 0 || a + ws_len_at(s, a) > b { a } else { trim_start_from(s, a + ws_len_at(s, a), b) }
}

/// End of `s[a..b]` before trailing white space.
pub open spec fn trim_end_from(s: Seq<u8>, a: int, b: int) -> int
    decreases b - a,
{
    if b <= a || ws_len_before(s, b) == 0 || b - ws_len_before(s, b) < a { b } else { trim_end_from(s, a, b - ws_len_before(s, b)) }
}

/// The text of `s[a..b]` with white space trimmed at both ends.
pub open spec fn trimmed(s: Seq<u8>, a: int, b: int) -> Seq<u8> {
    let a2 = trim_start_from(s, a, b);
    s.subrange(a2, trim_end_from(s, a2, b))
}

/// `s[a..b]` with white space trimmed at both ends, as `str::trim` does.
pub fn trim_range(s: &[u8], a: usize, b: usize) -> (r: (usize, usize))
    requires a <= b <= s@.len(),
    ensures
        r.0 == trim_start_from(s@, a as int, b as int),
        r.1 == trim_end_from(s@, r.0 as int, b as int),
        a <= r.0 <= r.1 <= b,
{
    let mut x = a;
    while x < b && ws_len(s, x) > 0 && ws_len(s, x) <= b - x
        invariant a <= x <= b <= s@.len(),
            trim_start_from(s@, x as int, b as int) == trim_start_from(s@, a as int, b as int),
        decreases b - x,
    {
        x = x + ws_len(s, x);
    }
    let mut y = b;
    while y > x && ws_len_end(s, y) > 0 && y - ws_len_end(s, y) >= x
        invariant x <= y <= b <= s@.len(),
            trim_end_from(s@, x as int, y as int) == trim_end_from(s@, x as int, b as int),
        decreases y - x,
    {
        y = y - ws_len_end(s, y);
    }
    (x, y)
}

} // verus!

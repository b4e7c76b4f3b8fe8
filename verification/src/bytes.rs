//! Small helpers on byte sequences shared by the whole library.

use vstd::prelude::*;
use vstd::string::StringSliceAdditionalSpecFns;

verus! {

/// Byte-wise equality of two slices.
pub fn bytes_eq(a: &[u8], b: &[u8]) -> (r: bool)
    ensures r == (a@ == b@),
{
    if a.len() != b.len() {
        return false;
    }
    let mut i: usize = 0;
    while i < a.len()
        invariant
            a.len() == b.len(),
            i <= a.len(),
            forall|j: int| 0 <= j < i ==> a@[j] == b@[j],
        decreases a.len() - i,
    {
        if a[i] != b[i] {
            return false;
        }
        i += 1;
    }
    assert(a@ =~= b@);
    true
}

/// Copies a byte vector.
pub fn clone_bytes(v: &[u8]) -> (r: Vec<u8>)
    ensures r@ == v@,
{
    vstd::slice::slice_to_vec(v)
}

/// `true` when `s` starts with `prefix`.
pub fn starts_with(s: &[u8], prefix: &[u8]) -> (r: bool)
    ensures r == (prefix@.len() <= s@.len() && s@.subrange(0, prefix@.len() as int) == prefix@),
{
    if prefix.len() > s.len() {
        return false;
    }
    let mut i: usize = 0;
    while i < prefix.len()
        invariant
            prefix.len() <= s.len(),
            i <= prefix.len(),
            forall|j: int| 0 <= j < i ==> s@[j] == prefix@[j],
        decreases prefix.len() - i,
    {
        if s[i] != prefix[i] {
            assert(s@.subrange(0, prefix@.len() as int)[i as int] != prefix@[i as int]);
            return false;
        }
        i += 1;
    }
    assert(s@.subrange(0, prefix@.len() as int) =~= prefix@);
    true
}

/// `true` when `s[pos..]` starts with `prefix`.
pub fn starts_with_at(s: &[u8], pos: usize, prefix: &[u8]) -> (r: bool)
    ensures r == (pos <= s@.len() && prefix@.len() <= s@.len() - pos
        && s@.subrange(pos as int, pos + prefix@.len()) == prefix@),
{
    if pos > s.len() || prefix.len() > s.len() - pos {
        return false;
    }
    let mut i: usize = 0;
    while i < prefix.len()
        invariant
            pos <= s.len(),
            prefix.len() <= s.len() - pos,
            i <= prefix.len(),
            forall|j: int| 0 <= j < i ==> s@[pos + j] == prefix@[j],
        decreases prefix.len() - i,
    {
        if s[pos + i] != prefix[i] {
            assert(s@.subrange(pos as int, pos + prefix@.len())[i as int] != prefix@[i as int]);
            return false;
        }
        i += 1;
    }
    assert(s@.subrange(pos as int, pos + prefix@.len()) =~= prefix@);
    true
}

/// The bytes of a string literal, as the library compares names and keywords.
pub open spec fn lit(s: &str) -> Seq<u8> {
    s.spec_bytes()
}

/// `true` when `b` holds exactly the bytes of `s`.
pub fn eq_str(b: &[u8], s: &str) -> (r: bool)
    ensures r == (b@ == lit(s)),
{
    bytes_eq(b, s.as_bytes())
}

/// The bytes of `s` as a vector.
pub fn str_bytes(s: &str) -> (r: Vec<u8>)
    ensures r@ == lit(s),
{
    clone_bytes(s.as_bytes())
}

/// A copy of `s[from..to]`.
pub fn copy_range(s: &[u8], from: usize, to: usize) -> (r: Vec<u8>)
    requires from <= to <= s@.len(),
    ensures r@ == s@.subrange(from as int, to as int),
{
    let mut v: Vec<u8> = Vec::new();
    let mut i = from;
    while i < to
        invariant from <= i <= to, to <= s@.len(), v@ == s@.subrange(from as int, i as int),
        decreases to - i,
    {
        v.push(s[i]);
        proof { assert(v@ =~= s@.subrange(from as int, i + 1)); }
        i += 1;
    }
    v
}

} // verus!

//! Object streams (PDF 1.5+, PDF 32000 §7.5.7): several objects stored in
//! one stream, located through a preamble of `object-number offset` pairs.

use vstd::prelude::*;
use crate::bytes::{lit, clone_bytes};
use crate::cos::{CosDictionary, CosName, CosObject, CosStream, CosValue, dict_lookup, dict_insert, lemma_lookup_insert};
use super::num::{unsigned_value, parse_unsigned, ws_len_at, ws_len};

verus! {

/// An entry of an object stream: an object number and its offset.
#[derive(Debug, Clone, Copy, PartialEq, Eq)]
pub struct ObjStmEntry {
    /// Object number within the stream.
    pub obj_num: u32,
    /// Byte offset within the decoded stream data, after `/First`.
    pub offset: u32,
}

/// Keys strictly increase.
pub open spec fn sorted_keys(s: Seq<(u32, u32)>) -> bool {
    forall|i: int, j: int| 0 <= i < j < s.len() ==> s[i].0 < s[j].0
}

/// First index whose key is at least `k`, from `i`.
pub open spec fn lower_bound(s: Seq<(u32, u32)>, k: u32, i: int) -> int
    decreases s.len() - i,
{
    if i < 0 || i >= s.len() || s[i].0 >= k { i } else { lower_bound(s, k, i + 1) }
}

/// The value recorded for `k`.
pub open spec fn map_get(s: Seq<(u32, u32)>, k: u32) -> Option<u32> {
    let p = lower_bound(s, k, 0);
    if 0 <= p < s.len() && s[p].0 == k { Some(s[p].1) } else { None }
}

/// Recording `k -> v`: an existing key's value is replaced, a new key is
/// placed in key order.
pub open spec fn map_insert(s: Seq<(u32, u32)>, k: u32, v: u32) -> Seq<(u32, u32)> {
    let p = lower_bound(s, k, 0);
    if 0 <= p < s.len() && s[p].0 == k { s.update(p, (k, v)) } else { s.insert(p, (k, v)) }
}

proof fn lemma_lower_bound(s: Seq<(u32, u32)>, k: u32, i: int)
    requires 0 <= i <= s.len(),
    ensures
        i <= lower_bound(s, k, i) <= s.len(),
        forall|j: int| i <= j < lower_bound(s, k, i) ==> s[j].0 < k,
        lower_bound(s, k, i) < s.len() ==> s[lower_bound(s, k, i)].0 >= k,
    decreases s.len() - i,
{
    if i < s.len() && s[i].0 < k {
        lemma_lower_bound(s, k, i + 1);
    }
}

proof fn lemma_insert_sorted(s: Seq<(u32, u32)>, k: u32, v: u32)
    requires sorted_keys(s),
    ensures sorted_keys(map_insert(s, k, v)),
        map_get(map_insert(s, k, v), k) == Some(v),
{
    lemma_lower_bound(s, k, 0);
    let p = lower_bound(s, k, 0);
    let t = map_insert(s, k, v);
    if 0 <= p < s.len() && s[p].0 == k {
        assert(sorted_keys(t));
        lemma_lower_bound(t, k, 0);
        assert forall|j: int| 0 <= j < p implies t[j].0 < k by {}
        lemma_lower_bound_eq(t, k, p);
    } else {
        assert forall|a: int, b: int| 0 <= a < b < t.len() implies t[a].0 < t[b].0 by {
            if b < p {
            } else if b == p {
                assert(t[a] == s[a]);
            } else if a == p {
                assert(t[b] == s[b - 1]);
            } else if a < p {
                assert(t[b] == s[b - 1]);
            } else {
                assert(t[a] == s[a - 1]);
                assert(t[b] == s[b - 1]);
            }
        }
        assert forall|j: int| 0 <= j < p implies t[j].0 < k by {}
        lemma_lower_bound_eq(t, k, p);
    }
}

/// When every key before `p` is below `k` and the key at `p` is at least
/// `k`, the lower bound is `p`.
proof fn lemma_lower_bound_eq(s: Seq<(u32, u32)>, k: u32, p: int)
    requires 0 <= p < s.len(), s[p].0 >= k, forall|j: int| 0 <= j < p ==> s[j].0 < k,
    ensures lower_bound(s, k, 0) == p,
{
    lemma_lower_bound_from(s, k, 0, p);
}

proof fn lemma_lower_bound_from(s: Seq<(u32, u32)>, k: u32, i: int, p: int)
    requires 0 <= i <= p < s.len(), s[p].0 >= k, forall|j: int| i <= j < p ==> s[j].0 < k,
    ensures lower_bound(s, k, i) == p,
    decreases p - i,
{
    if i < p {
        lemma_lower_bound_from(s, k, i + 1, p);
    }
}

/// A map from object numbers to offsets, kept in key order.
#[derive(Debug)]
pub struct OffsetMap {
    pairs: Vec<(u32, u32)>,
}

impl View for OffsetMap {
    type V = Seq<(u32, u32)>;

    closed spec fn view(&self) -> Seq<(u32, u32)> {
        self.pairs@
    }
}

impl OffsetMap {
    #[verifier::type_invariant]
    closed spec fn inv(&self) -> bool {
        sorted_keys(self.pairs@)
    }

    /// An empty map.
    pub fn new() -> (r: Self)
        ensures r@ == Seq::<(u32, u32)>::empty(),
    {
        OffsetMap { pairs: Vec::new() }
    }

    /// Records `k -> v` and returns the value `k` had before, if any.
    pub fn insert(&mut self, k: u32, v: u32) -> (r: Option<u32>)
        ensures
            final(self)@ == map_insert(old(self)@, k, v),
            r == map_get(old(self)@, k),
            map_get(final(self)@, k) == Some(v),
    {
        proof { use_type_invariant(&*self); }
        let ghost s = self.pairs@;
        let p = self.lower_bound(k);
        proof {
            lemma_lower_bound(s, k, 0);
            lemma_insert_sorted(s, k, v);
        }
        if p < self.pairs.len() && self.pairs[p].0 == k {
            let old_v = self.pairs[p].1;
            let mut pairs = Vec::new();
            std::mem::swap(&mut pairs, &mut self.pairs);
            pairs.set(p, (k, v));
            self.pairs = pairs;
            Some(old_v)
        } else {
            let mut pairs = Vec::new();
            std::mem::swap(&mut pairs, &mut self.pairs);
            pairs.insert(p, (k, v));
            self.pairs = pairs;
            None
        }
    }

    fn lower_bound(&self, k: u32) -> (r: usize)
        ensures r == lower_bound(self@, k, 0),
    {
        let mut i: usize = 0;
        while i < self.pairs.len() && self.pairs[i].0 < k
            invariant i <= self.pairs@.len(), lower_bound(self.pairs@, k, i as int) == lower_bound(self.pairs@, k, 0),
            decreases self.pairs.len() - i,
        {
            i += 1;
        }
        i
    }

    /// The value recorded for `k`.
    pub fn get(&self, k: &u32) -> (r: Option<&u32>)
        ensures
            match map_get(self@, *k) {
                Some(v) => r == Some(&v),
                None => r is None,
            },
    {
        let p = self.lower_bound(*k);
        proof { lemma_lower_bound(self@, *k, 0); }
        if p < self.pairs.len() && self.pairs[p].0 == *k {
            Some(&self.pairs[p].1)
        } else {
            None
        }
    }

    /// `true` when `k` is recorded.
    pub fn contains_key(&self, k: &u32) -> (r: bool)
        ensures r == (map_get(self@, *k) is Some),
    {
        self.get(k).is_some()
    }

    /// Number of recorded keys.
    pub fn len(&self) -> (r: usize)
        ensures r == self@.len(),
    {
        self.pairs.len()
    }

    /// `true` when nothing is recorded.
    pub fn is_empty(&self) -> (r: bool)
        ensures r == (self@.len() == 0),
    {
        self.pairs.len() == 0
    }

    /// The pairs in key order.
    pub fn pairs(&self) -> (r: &[(u32, u32)])
        ensures r@ == self@, sorted_keys(r@),
    {
        proof { use_type_invariant(self); }
        self.pairs.as_slice()
    }
}

/// A parsed object stream.
#[derive(Debug)]
pub struct ObjectStream {
    /// Offset of the first object in the decoded data (`/First`).
    pub first: u32,
    /// Number of objects in the stream (`/N`).
    pub count: u32,
    /// Object number to offset (after `first`).
    pub entries: OffsetMap,
    /// Decoded stream data.
    pub data: Vec<u8>,
}

// ---------------------------------------------------------------------------
// Preamble tokens
// ---------------------------------------------------------------------------

/// End of the token (run of non-white-space) that starts at `i`.
pub open spec fn token_end(s: Seq<u8>, i: int) -> int
    decreases s.len() - i,
{
    if 0 <= i < s.len() && ws_len_at(s, i) == 0 { token_end(s, i + 1) } else { i }
}

/// The white-space separated tokens of `s[i..]`, as `(start, end)` ranges.
pub open spec fn tokens_from(s: Seq<u8>, i: int) -> Seq<(int, int)>
    decreases s.len() - i,
{
    if i < 0 || i >= s.len() {
        Seq::empty()
    } else if ws_len_at(s, i) > 0 {
        tokens_from(s, i + ws_len_at(s, i))
    } else {
        proof { lemma_token_end(s, i); }
        seq![(i, token_end(s, i))] + tokens_from(s, token_end(s, i))
    }
}

pub proof fn lemma_token_end(s: Seq<u8>, i: int)
    requires 0 <= i <= s.len(),
    ensures i <= token_end(s, i) <= s.len(),
        i < s.len() && ws_len_at(s, i) == 0 ==> token_end(s, i) > i,
    decreases s.len() - i,
{
    if i < s.len() && ws_len_at(s, i) == 0 {
        lemma_token_end(s, i + 1);
    }
}

/// Splits `s` at white space (ASCII and the Unicode white-space characters,
/// as `str::split_whitespace` does on its UTF-8 text).
pub fn split_whitespace_ranges(s: &[u8]) -> (r: Vec<(usize, usize)>)
    ensures
        r@.len() == tokens_from(s@, 0).len(),
        forall|k: int| 0 <= k < r@.len() ==> (#[trigger] r@[k]).0 as int == tokens_from(s@, 0)[k].0
            && r@[k].1 as int == tokens_from(s@, 0)[k].1 && r@[k].0 <= r@[k].1 <= s@.len(),
{
    let mut r: Vec<(usize, usize)> = Vec::new();
    let mut i: usize = 0;
    while i < s.len()
        invariant
            i <= s@.len(),
            r@.len() + tokens_from(s@, i as int).len() == tokens_from(s@, 0).len(),
            forall|k: int| 0 <= k < r@.len() ==> (#[trigger] r@[k]).0 as int == tokens_from(s@, 0)[k].0
                && r@[k].1 as int == tokens_from(s@, 0)[k].1 && r@[k].0 <= r@[k].1 <= s@.len(),
            forall|k: int| 0 <= k < tokens_from(s@, i as int).len() ==>
                tokens_from(s@, 0)[r@.len() + k] == #[trigger] tokens_from(s@, i as int)[k],
        decreases s.len() - i,
    {
        let w = ws_len(s, i);
        if w > 0 {
            i = i + w;
        } else {
            let start = i;
            proof { lemma_token_end(s@, i as int); }
            let mut j = i;
            while j < s.len() && ws_len(s, j) == 0
                invariant start <= j <= s@.len(), token_end(s@, j as int) == token_end(s@, start as int),
                decreases s.len() - j,
            {
                j += 1;
            }
            let ghost t_i = tokens_from(s@, start as int);
            let ghost t_j = tokens_from(s@, j as int);
            let ghost r0 = r@;
            assert(t_i == seq![(start as int, j as int)] + t_j);
            r.push((start, j));
            proof {
                assert(t_i[0] == (start as int, j as int));
                assert forall|k: int| 0 <= k < t_j.len() implies
                    tokens_from(s@, 0)[r@.len() + k] == #[trigger] t_j[k] by {
                    assert(t_i[k + 1] == t_j[k]);
                }
                assert forall|k: int| 0 <= k < r@.len() implies (#[trigger] r@[k]).0 as int == tokens_from(s@, 0)[k].0
                    && r@[k].1 as int == tokens_from(s@, 0)[k].1 && r@[k].0 <= r@[k].1 <= s@.len() by {
                    if k < r0.len() { assert(r@[k] == r0[k]); } else { assert(tokens_from(s@, 0)[k] == t_i[0]); }
                }
            }
            i = j;
        }
    }
    r
}

/// The pairs that the first `2 * count` preamble tokens hold, recorded in
/// order into `acc`; `None` when a token is not a `u32`.
pub open spec fn preamble_pairs(s: Seq<u8>, toks: Seq<(int, int)>, i: int, count: int, acc: Seq<(u32, u32)>) -> Option<Seq<(u32, u32)>>
    decreases count - i,
{
    if i < 0 || i >= count {
        Some(acc)
    } else {
        let a = toks[2 * i];
        let b = toks[2 * i + 1];
        match (unsigned_value(s.subrange(a.0, a.1), 0xffff_ffff), unsigned_value(s.subrange(b.0, b.1), 0xffff_ffff)) {
            (Some(n), Some(o)) => preamble_pairs(s, toks, i + 1, count, map_insert(acc, n as u32, o as u32)),
            _ => None,
        }
    }
}

/// The entries an object stream's preamble declares, when every one of the
/// first `count` pairs parses.
pub open spec fn objstm_entries(data: Seq<u8>, first: u32, count: u32) -> Option<Seq<(u32, u32)>> {
    let plen = if (first as int) < (data.len() as u32) as int { first as int } else { (data.len() as u32) as int };
    let pre = data.subrange(0, plen);
    let toks = tokens_from(pre, 0);
    if toks.len() < 2 * count {
        None
    } else {
        preamble_pairs(pre, toks, 0, count as int, Seq::empty())
    }
}

/// The integer under `key`, truncated to 32 bits.
pub open spec fn dict_u32(d: Seq<(Seq<u8>, CosValue)>, key: Seq<u8>) -> Option<u32> {
    match dict_lookup(d, key) {
        Some(CosValue::Integer(n)) => Some((n as i64) as u32),
        _ => None,
    }
}

/// The smallest offset greater than `off` among the entries from `i` on.
pub open spec fn next_offset(s: Seq<(u32, u32)>, off: u32, i: int) -> Option<u32>
    decreases s.len() - i,
{
    if i < 0 || i >= s.len() {
        None
    } else {
        let rest = next_offset(s, off, i + 1);
        if s[i].1 > off && (rest is None || s[i].1 < rest->Some_0) { Some(s[i].1) } else { rest }
    }
}

/// End of the object whose offset is `off`: where the object with the next
/// larger offset starts, else the end of the data (`len`).
pub open spec fn object_end(s: Seq<(u32, u32)>, off: u32, first: u32, len: int) -> int {
    match next_offset(s, off, 0) {
        Some(o) => first + o,
        None => len,
    }
}

/// The bytes of object `num` in an object stream with entries `e`, first
/// object offset `first` and data `data` (see `ObjectStream::get_object`).
pub open spec fn objstm_bytes(e: Seq<(u32, u32)>, first: u32, data: Seq<u8>, num: u32) -> Option<Seq<u8>> {
    match map_get(e, num) {
        None => None,
        Some(off) => {
            let start = first + off;
            let end = object_end(e, off, first, data.len() as int);
            if start < data.len() && start <= end {
                Some(data.subrange(start, if end < data.len() { end } else { data.len() as int }))
            } else {
                None
            }
        }
    }
}

impl ObjectStream {
    /// An object stream with no entries.
    pub fn new(first: u32, count: u32, data: Vec<u8>) -> (r: Self)
        ensures r.first == first, r.count == count, r.data == data, r.entries@ == Seq::<(u32, u32)>::empty(),
    {
        ObjectStream { first, count, entries: OffsetMap::new(), data }
    }

    /// Parses an object stream from its dictionary (`/N`, `/First`) and its
    /// decoded data, whose preamble holds `object-number offset` pairs.
    pub fn from_stream(dict: &CosDictionary, data: Vec<u8>) -> (r: Option<Self>)
        ensures
            match (dict_u32(dict@, lit("N")), dict_u32(dict@, lit("First"))) {
                (Some(n), Some(f)) => match objstm_entries(data@, f, n) {
                    Some(e) => r is Some && r->Some_0.first == f && r->Some_0.count == n
                        && r->Some_0.entries@ == e && r->Some_0.data@ == data@,
                    None => r is None,
                },
                _ => r is None,
            },
    {
        let count: u32 = match dict.get_int(&CosName::named("N")) {
            Some(n) => n as u32,
            None => return None,
        };
        let first: u32 = match dict.get_int(&CosName::named("First")) {
            Some(n) => n as u32,
            None => return None,
        };
        let dl = data.len() as u32;
        let plen: usize = if first < dl { first as usize } else { dl as usize };
        let pre = &data[0..plen];
        let toks = split_whitespace_ranges(pre);
        let ghost gt = tokens_from(pre@, 0);
        if (toks.len() as u64) < 2 * (count as u64) {
            return None;
        }
        let mut entries = OffsetMap::new();
        let mut i: u32 = 0;
        while i < count
            invariant
                i <= count,
                toks.len() >= 2 * count,
                dict_u32(dict@, lit("N")) == Some(count),
                dict_u32(dict@, lit("First")) == Some(first),
                pre@ == data@.subrange(0, pre@.len() as int),
                objstm_entries(data@, first, count) == preamble_pairs(pre@, gt, 0, count as int, Seq::empty()),
                toks@.len() == gt.len(),
                gt == tokens_from(pre@, 0),
                forall|k: int| 0 <= k < toks@.len() ==> (#[trigger] toks@[k]).0 as int == gt[k].0
                    && toks@[k].1 as int == gt[k].1 && toks@[k].0 <= toks@[k].1 <= pre@.len(),
                preamble_pairs(pre@, gt, i as int, count as int, entries@)
                    == preamble_pairs(pre@, gt, 0, count as int, Seq::empty()),
            decreases count - i,
        {
            let k = 2 * (i as usize);
            let (a0, a1) = toks[k];
            let (b0, b1) = toks[k + 1];
            let n = match parse_unsigned(&pre[a0..a1], 0xffff_ffff) {
                Some(v) => v as u32,
                None => return None,
            };
            let o = match parse_unsigned(&pre[b0..b1], 0xffff_ffff) {
                Some(v) => v as u32,
                None => return None,
            };
            entries.insert(n, o);
            i += 1;
        }
        Some(ObjectStream { first, count, entries, data })
    }

    /// The bytes of object `obj_num`: from its offset to the start of the
    /// next object (see [`object_end`]), cut at the end of the data.
    pub fn get_object(&self, obj_num: u32) -> (r: Option<&[u8]>)
        ensures
            match objstm_bytes(self.entries@, self.first, self.data@, obj_num) {
                Some(b) => r is Some && r->Some_0@ == b,
                None => r is None,
            },
            match map_get(self.entries@, obj_num) {
                None => r is None,
                Some(off) => {
                    let start = self.first + off;
                    let end = object_end(self.entries@, off, self.first, self.data@.len() as int);
                    if start < self.data@.len() && start <= end {
                        r is Some && r->Some_0@ == self.data@.subrange(start,
                            if end < self.data@.len() { end } else { self.data@.len() as int })
                    } else {
                        r is None
                    }
                }
            },
    {
        let off = match self.entries.get(&obj_num) {
            Some(o) => *o,
            None => return None,
        };
        let start: u64 = self.first as u64 + off as u64;
        let pairs = self.entries.pairs();
        let mut best: Option<u32> = None;
        let mut i: usize = pairs.len();
        while i > 0
            invariant
                i <= pairs@.len(),
                pairs@ == self.entries@,
                best == next_offset(pairs@, off, i as int),
            decreases i,
        {
            i -= 1;
            let o = pairs[i].1;
            if o > off && (best.is_none() || o < best.unwrap()) {
                best = Some(o);
            }
        }
        let end: u64 = match best {
            Some(o) => self.first as u64 + o as u64,
            None => self.data.len() as u64,
        };
        let len = self.data.len() as u64;
        if start < len && start <= end {
            let e = if end < len { end } else { len };
            Some(&self.data.as_slice()[start as usize..e as usize])
        } else {
            None
        }
    }

    /// The object numbers, in increasing order.
    pub fn object_numbers(&self) -> (r: Vec<u32>)
        ensures r@.len() == self.entries@.len(),
            forall|k: int| 0 <= k < r@.len() ==> #[trigger] r@[k] == self.entries@[k].0,
    {
        let pairs = self.entries.pairs();
        let mut r: Vec<u32> = Vec::new();
        let mut i: usize = 0;
        while i < pairs.len()
            invariant i <= pairs@.len(), pairs@ == self.entries@, r@.len() == i,
                forall|k: int| 0 <= k < i ==> #[trigger] r@[k] == pairs@[k].0,
            decreases pairs.len() - i,
        {
            r.push(pairs[i].0);
            i += 1;
        }
        r
    }

    /// `true` when the stream holds object `obj_num`.
    pub fn contains(&self, obj_num: u32) -> (r: bool)
        ensures r == (map_get(self.entries@, obj_num) is Some),
    {
        self.entries.contains_key(&obj_num)
    }

    /// The stream object: `/Type /ObjStm`, `/N`, `/First`, and the data.
    pub fn to_stream(&self) -> (r: CosStream)
        ensures
            r.data@ == self.data@,
            dict_lookup(r.dictionary@, lit("Type")) == Some(CosValue::Name(lit("ObjStm"))),
            dict_lookup(r.dictionary@, lit("N")) == Some(CosValue::Integer(self.count as int)),
            dict_lookup(r.dictionary@, lit("First")) == Some(CosValue::Integer(self.first as int)),
    {
        let mut dict = CosDictionary::new();
        dict.set(CosName::named("Type"), CosObject::Name(CosName::named("ObjStm")));
        dict.set(CosName::named("N"), CosObject::Integer(self.count as i64));
        dict.set(CosName::named("First"), CosObject::Integer(self.first as i64));
        proof {
            reveal_strlit("Type");
            vstd::string::is_ascii_spec_bytes("Type");
            reveal_strlit("N");
            vstd::string::is_ascii_spec_bytes("N");
            reveal_strlit("First");
            vstd::string::is_ascii_spec_bytes("First");
            let e = Seq::<(Seq<u8>, CosValue)>::empty();
            let d1 = dict_insert(e, lit("Type"), CosValue::Name(lit("ObjStm")));
            let d2 = dict_insert(d1, lit("N"), CosValue::Integer(self.count as int));
            lemma_lookup_insert(e, lit("Type"), CosValue::Name(lit("ObjStm")), lit("Type"));
            lemma_lookup_insert(d1, lit("N"), CosValue::Integer(self.count as int), lit("Type"));
            lemma_lookup_insert(d1, lit("N"), CosValue::Integer(self.count as int), lit("N"));
            lemma_lookup_insert(d2, lit("First"), CosValue::Integer(self.first as int), lit("Type"));
            lemma_lookup_insert(d2, lit("First"), CosValue::Integer(self.first as int), lit("N"));
            lemma_lookup_insert(d2, lit("First"), CosValue::Integer(self.first as int), lit("First"));
        }
        CosStream::new(dict, clone_bytes(self.data.as_slice()))
    }
}

} // verus!

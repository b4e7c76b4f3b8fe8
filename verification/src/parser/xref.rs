//! Cross-reference tables: `startxref` discovery, classic `xref` tables,
//! cross-reference streams (PDF 1.5+), and the merged table built by
//! following `Prev` chains.
//!
//! The outermost (most recent) section takes precedence for any object id,
//! as in the incremental-update model: an id is recorded once and never
//! overwritten, and trailer keys are only added, never replaced.

use vstd::prelude::*;
use vstd::std_specs::iter::IteratorSpec;
use crate::bytes::{lit, starts_with_at, clone_bytes, eq_str};
use crate::cos::{CosDictionary, CosName, CosObject, CosValue, ObjectId, dict_lookup, dict_insert,
    view_entries, lemma_view_entries, view_objs, lemma_view_objs};
use super::lexer::{is_ws, is_digit, digits_value};
use super::num::{unsigned_value, parse_unsigned, trim_range, trimmed};
use super::parser::{IndirectOut, ParseError, ParseOut, Parser, parse_indirect, parse_value};
use crate::io::{Decoded, decode_spec};

verus! {

broadcast use lemma_view_objs;

/// A single entry in the cross-reference table.
#[derive(Debug, Clone, Copy, PartialEq, Eq)]
pub enum XRefEntry {
    /// A free (deleted) object.
    Free {
        /// Object number of the next free object in the chain.
        next_free: u32,
        /// Generation number to use when this object is reused.
        generation: u16,
    },
    /// An object at a fixed byte offset in the file.
    InUse {
        /// Byte offset from the beginning of the file.
        offset: u64,
        /// Generation number.
        generation: u16,
    },
    /// An object stored inside an object stream (PDF 1.5+).
    Compressed {
        /// Object number of the object stream that holds this object.
        stream_object_number: u32,
        /// Index of this object within that stream.
        index_in_stream: u32,
    },
}

/// The merged cross-reference map built from one or more sections.
#[derive(Debug)]
pub struct XRefTable {
    /// The recorded `(id, entry)` pairs, each id once, in the order recorded.
    pub entries: Vec<(ObjectId, XRefEntry)>,
    /// The merged trailer dictionary (the latest update wins per key).
    pub trailer: CosDictionary,
    /// Header version as `(major, minor)`.
    pub pdf_version: Option<(u8, u8)>,
}

/// The entry recorded for `id` in `s`, searching from index `i`.
pub open spec fn xref_find_from(s: Seq<(ObjectId, XRefEntry)>, id: ObjectId, i: int) -> Option<XRefEntry>
    decreases s.len() - i,
{
    if i < 0 || i >= s.len() {
        None
    } else if s[i].0 == id {
        Some(s[i].1)
    } else {
        xref_find_from(s, id, i + 1)
    }
}

/// The entry recorded for `id`.
pub open spec fn xref_find(s: Seq<(ObjectId, XRefEntry)>, id: ObjectId) -> Option<XRefEntry> {
    xref_find_from(s, id, 0)
}

/// No object id is recorded twice.
pub open spec fn distinct_ids(s: Seq<(ObjectId, XRefEntry)>) -> bool {
    forall|i: int, j: int| 0 <= i < j < s.len() ==> s[i].0 != s[j].0
}

/// The table only grew: every id it recorded keeps its entry.
pub open spec fn extends(old: Seq<(ObjectId, XRefEntry)>, new: Seq<(ObjectId, XRefEntry)>) -> bool {
    &&& old.len() <= new.len()
    &&& forall|i: int| 0 <= i < old.len() ==> new[i] == old[i]
}

/// Trailer merging: each key of `s[i..]` is added to `acc` unless present.
pub open spec fn merge_from(acc: Seq<(Seq<u8>, CosValue)>, s: Seq<(Seq<u8>, CosValue)>, i: int) -> Seq<(Seq<u8>, CosValue)>
    decreases s.len() - i,
{
    if i < 0 || i >= s.len() {
        acc
    } else {
        let next = if dict_lookup(acc, s[i].0) is Some { acc } else { dict_insert(acc, s[i].0, s[i].1) };
        merge_from(next, s, i + 1)
    }
}

pub proof fn lemma_xref_find_from(s: Seq<(ObjectId, XRefEntry)>, id: ObjectId, i: int)
    requires 0 <= i <= s.len(),
    ensures
        xref_find_from(s, id, i) is None <==> forall|j: int| i <= j < s.len() ==> s[j].0 != id,
        xref_find_from(s, id, i) is Some ==> exists|j: int| i <= j < s.len() && s[j].0 == id
            && xref_find_from(s, id, i) == Some(s[j].1),
    decreases s.len() - i,
{
    if i < s.len() && s[i].0 != id {
        lemma_xref_find_from(s, id, i + 1);
    }
}

pub proof fn lemma_xref_find_push(s: Seq<(ObjectId, XRefEntry)>, id: ObjectId, e: XRefEntry, q: ObjectId, i: int)
    requires 0 <= i <= s.len(),
    ensures xref_find_from(s.push((id, e)), q, i) == (match xref_find_from(s, q, i) {
        Some(x) => Some(x),
        None => if q == id { Some(e) } else { None },
    }),
    decreases s.len() - i,
{
    if i < s.len() {
        assert(s.push((id, e))[i] == s[i]);
        if s[i].0 != q {
            lemma_xref_find_push(s, id, e, q, i + 1);
        }
    } else {
        assert(s.push((id, e))[i] == (id, e));
        assert(xref_find_from(s.push((id, e)), q, i + 1) is None);
    }
}

impl View for XRefTable {
    type V = Seq<(ObjectId, XRefEntry)>;

    open spec fn view(&self) -> Seq<(ObjectId, XRefEntry)> {
        self.entries@
    }
}

impl XRefTable {
    /// The table holds each id once.
    pub open spec fn wf(&self) -> bool {
        distinct_ids(self@)
    }

    /// An empty table.
    pub fn new() -> (r: Self)
        ensures r@ == Seq::<(ObjectId, XRefEntry)>::empty(), r.trailer@ == Seq::<(Seq<u8>, CosValue)>::empty(),
            r.pdf_version is None, r.wf(),
    {
        XRefTable { entries: Vec::new(), trailer: CosDictionary::new(), pdf_version: None }
    }

    /// Records `entry` for `id` unless `id` is already recorded: earlier
    /// (higher-priority) entries are never overwritten.
    pub fn insert_if_absent(&mut self, id: ObjectId, entry: XRefEntry)
        ensures
            final(self)@ == (if xref_find(old(self)@, id) is Some { old(self)@ } else { old(self)@.push((id, entry)) }),
            final(self).trailer == old(self).trailer,
            final(self).pdf_version == old(self).pdf_version,
            old(self).wf() ==> final(self).wf(),
            xref_find(final(self)@, id) == (match xref_find(old(self)@, id) { Some(x) => Some(x), None => Some(entry) }),
    {
        proof {
            lemma_xref_find_from(self@, id, 0);
            lemma_xref_find_push(self@, id, entry, id, 0);
        }
        if self.position(&id).is_none() {
            self.entries.push((id, entry));
        }
    }

    fn position(&self, id: &ObjectId) -> (r: Option<usize>)
        ensures
            r is None <==> xref_find(self@, *id) is None,
            r is Some ==> r->Some_0 < self@.len() && self@[r->Some_0 as int].0 == *id
                && xref_find(self@, *id) == Some(self@[r->Some_0 as int].1),
    {
        let mut i: usize = 0;
        while i < self.entries.len()
            invariant
                i <= self.entries@.len(),
                xref_find(self@, *id) == xref_find_from(self@, *id, i as int),
            decreases self.entries.len() - i,
        {
            if self.entries[i].0.same(id) {
                return Some(i);
            }
            i += 1;
        }
        None
    }

    /// Looks up the entry recorded for an object id.
    pub fn get(&self, id: &ObjectId) -> (r: Option<&XRefEntry>)
        ensures
            match xref_find(self@, *id) {
                Some(e) => r == Some(&e),
                None => r is None,
            },
    {
        match self.position(id) {
            Some(i) => Some(&self.entries[i].1),
            None => None,
        }
    }

    /// Number of recorded objects.
    pub fn len(&self) -> (r: usize)
        ensures r == self@.len(),
    {
        self.entries.len()
    }

    /// `true` when nothing is recorded.
    pub fn is_empty(&self) -> (r: bool)
        ensures r == (self@.len() == 0),
    {
        self.entries.len() == 0
    }

    /// The recorded `(id, entry)` pairs, in the order they were recorded.
    pub fn entries(&self) -> (r: &[(ObjectId, XRefEntry)])
        ensures r@ == self@,
    {
        self.entries.as_slice()
    }

    /// Iterates the recorded `(id, entry)` pairs.
    pub fn iter(&self) -> (r: std::slice::Iter<'_, (ObjectId, XRefEntry)>)
        ensures
            r.remaining().len() == self@.len(),
            forall|i: int| 0 <= i < self@.len() ==> *(#[trigger] r.remaining()[i]) == self@[i],
    {
        proof { broadcast use vstd::std_specs::slice::axiom_spec_slice_iter; }
        self.entries.as_slice().iter()
    }

    /// Merges a trailer dictionary: keys not yet present are added, present
    /// keys keep their value.
    pub fn merge_trailer(&mut self, trailer: &CosDictionary)
        ensures
            final(self).trailer@ == merge_from(old(self).trailer@, trailer@, 0),
            final(self)@ == old(self)@,
            final(self).pdf_version == old(self).pdf_version,
    {
        let items = trailer.as_slice();
        let ghost s = trailer@;
        let mut i: usize = 0;
        while i < items.len()
            invariant
                i <= items@.len(),
                view_entries(items@) == s,
                s.len() == items@.len(),
                self@ == old(self)@,
                self.pdf_version == old(self).pdf_version,
                merge_from(self.trailer@, s, i as int) == merge_from(old(self).trailer@, s, 0),
            decreases items.len() - i,
        {
            proof {
                lemma_view_entries(items@);
            }
            let key = &items[i].0;
            if !self.trailer.contains_key(key) {
                let k = key.copy();
                let v = items[i].1.deep_clone();
                self.trailer.insert(k, v);
            }
            i += 1;
        }
    }
}

// ---------------------------------------------------------------------------
// Byte-level helpers
// ---------------------------------------------------------------------------

/// Position after the white space (NUL, TAB, LF, FF, CR, SPACE) from `i`.
pub open spec fn skip_plain_ws(s: Seq<u8>, i: int) -> int
    decreases s.len() - i,
{
    if 0 <= i < s.len() && is_ws(s[i]) { skip_plain_ws(s, i + 1) } else { i }
}

/// End of the run of ASCII digits starting at `i`.
pub open spec fn digits_end(s: Seq<u8>, i: int) -> int
    decreases s.len() - i,
{
    if 0 <= i < s.len() && is_digit(s[i]) { digits_end(s, i + 1) } else { i }
}

pub proof fn lemma_skip_plain_ws(s: Seq<u8>, i: int)
    requires 0 <= i <= s.len(),
    ensures i <= skip_plain_ws(s, i) <= s.len(),
    decreases s.len() - i,
{
    if i < s.len() && is_ws(s[i]) {
        lemma_skip_plain_ws(s, i + 1);
    }
}

pub proof fn lemma_digits_end(s: Seq<u8>, i: int)
    requires 0 <= i <= s.len(),
    ensures
        i <= digits_end(s, i) <= s.len(),
        forall|k: int| i <= k < digits_end(s, i) ==> is_digit(#[trigger] s[k]),
    decreases s.len() - i,
{
    if i < s.len() && is_digit(s[i]) {
        lemma_digits_end(s, i + 1);
    }
}

/// Skips white space in `slice` from `pos`.
pub fn skip_ws_at(slice: &[u8], pos: usize) -> (r: usize)
    requires pos <= slice@.len(),
    ensures r == skip_plain_ws(slice@, pos as int), pos <= r <= slice@.len(),
{
    let mut p = pos;
    while p < slice.len() && (slice[p] == 0x20 || slice[p] == 0x09 || slice[p] == 0x0d || slice[p] == 0x0a
        || slice[p] == 0x0c || slice[p] == 0x00)
        invariant pos <= p <= slice@.len(), skip_plain_ws(slice@, p as int) == skip_plain_ws(slice@, pos as int),
        decreases slice.len() - p,
    {
        p += 1;
    }
    p
}

/// Skips one end-of-line (`\r\n`, `\r` or `\n`) at `pos`.
pub fn skip_eol(slice: &[u8], pos: usize) -> (r: usize)
    requires pos <= slice@.len(),
    ensures
        ({
            let p1 = if pos < slice@.len() && slice@[pos as int] == 0x0d { pos + 1 } else { pos as int };
            r == if p1 < slice@.len() && slice@[p1] == 0x0a { p1 + 1 } else { p1 }
        }),
        r <= slice@.len(),
{
    let mut p = pos;
    if p < slice.len() && slice[p] == 0x0d {
        p += 1;
    }
    if p < slice.len() && slice[p] == 0x0a {
        p += 1;
    }
    p
}

/// End of the digit run from `pos`.
fn digits_end_at(s: &[u8], pos: usize) -> (r: usize)
    requires pos <= s@.len(),
    ensures r == digits_end(s@, pos as int), pos <= r <= s@.len(),
{
    let mut i = pos;
    while i < s.len() && 0x30 <= s[i] && s[i] <= 0x39
        invariant pos <= i <= s@.len(), digits_end(s@, i as int) == digits_end(s@, pos as int),
        decreases s.len() - i,
    {
        i += 1;
    }
    i
}

/// A decimal `u32` at the front of `bytes` and the number of digits read.
pub open spec fn ascii_u32(bytes: Seq<u8>) -> Option<(u32, int)> {
    let n = digits_end(bytes, 0);
    if n == 0 {
        None
    } else {
        match unsigned_value(bytes.subrange(0, n), 0xffff_ffff) {
            Some(v) => Some((v as u32, n)),
            None => None,
        }
    }
}

/// Reads a decimal `u32` from the front of `bytes`: its value and the
/// number of bytes consumed. `None` when no digit is found or the value
/// does not fit.
pub fn read_ascii_u32(bytes: &[u8]) -> (r: Option<(u32, usize)>)
    ensures
        match ascii_u32(bytes@) {
            Some((v, n)) => r == Some((v, n as usize)),
            None => r is None,
        },
{
    let n = digits_end_at(bytes, 0);
    if n == 0 {
        return None;
    }
    match parse_unsigned(&bytes[0..n], 0xffff_ffff) {
        Some(v) => {
            proof {
                assert(bytes@.subrange(0, n as int) == bytes@.subrange(0, digits_end(bytes@, 0)));
                let sv = unsigned_value(bytes@.subrange(0, n as int), 0xffff_ffff);
                assert(sv is Some && sv->Some_0 <= 0xffff_ffff);
                assert(v as int == sv->Some_0);
                assert(ascii_u32(bytes@) == Some((sv->Some_0 as u32, n as int)));
            }
            Some((v as u32, n))
        }
        None => None,
    }
}

/// `true` for `n` and `f`.
pub open spec fn is_kind_byte(b: u8) -> bool {
    b == 0x6e || b == 0x66
}

/// First `i >= k` with a kind byte preceded by a space.
pub open spec fn kind_after_space(entry: Seq<u8>, k: int) -> Option<int>
    decreases entry.len() - k,
{
    if k < 1 || k >= entry.len() {
        None
    } else if is_kind_byte(entry[k]) && entry[k - 1] == 0x20 {
        Some(k)
    } else {
        kind_after_space(entry, k + 1)
    }
}

proof fn lemma_kind_after_space(entry: Seq<u8>, k: int)
    ensures kind_after_space(entry, k) matches Some(i) ==> 1 <= i < entry.len(),
    decreases entry.len() - k,
{
    if !(k < 1 || k >= entry.len()) && !(is_kind_byte(entry[k]) && entry[k - 1] == 0x20) {
        lemma_kind_after_space(entry, k + 1);
    }
}

/// Where the `n`/`f` type byte of an xref entry line is: at 17, else at 16,
/// else the first one preceded by a space.
pub open spec fn entry_kind_index(entry: Seq<u8>) -> Option<int> {
    if 17 < entry.len() && is_kind_byte(entry[17]) {
        Some(17)
    } else if 16 < entry.len() && is_kind_byte(entry[16]) {
        Some(16)
    } else {
        kind_after_space(entry, 1)
    }
}

/// Finds the index of the `n` or `f` type byte in a raw xref entry.
pub fn find_xref_entry_type(entry: &[u8]) -> (r: Option<usize>)
    ensures
        match entry_kind_index(entry@) {
            Some(i) => r == Some(i as usize),
            None => r is None,
        },
        r is Some ==> r->Some_0 < entry@.len(),
{
    if 17 < entry.len() && (entry[17] == 0x6e || entry[17] == 0x66) {
        return Some(17);
    }
    if 16 < entry.len() && (entry[16] == 0x6e || entry[16] == 0x66) {
        return Some(16);
    }
    let mut i: usize = 1;
    while i < entry.len()
        invariant 1 <= i, kind_after_space(entry@, i as int) == kind_after_space(entry@, 1),
            !(17 < entry@.len() && is_kind_byte(entry@[17])),
            !(16 < entry@.len() && is_kind_byte(entry@[16])),
        decreases entry.len() - i,
    {
        if (entry[i] == 0x6e || entry[i] == 0x66) && entry[i - 1] == 0x20 {
            return Some(i);
        }
        i += 1;
    }
    None
}

/// The big-endian value of `s`, kept to 64 bits.
pub open spec fn be_value(s: Seq<u8>) -> int
    decreases s.len(),
{
    if s.len() == 0 { 0 } else { (be_value(s.drop_last()) * 256 + s.last()) % 0x1_0000_0000_0000_0000 }
}

/// Reads `width` bytes from `entry` at `offset` as a big-endian number.
pub fn read_be_uint(entry: &[u8], offset: usize, width: usize) -> (r: u64)
    requires offset + width <= entry@.len(),
    ensures r as int == be_value(entry@.subrange(offset as int, offset + width)),
{
    let mut val: u64 = 0;
    let mut i: usize = 0;
    while i < width
        invariant
            i <= width,
            offset + width <= entry.len(),
            val as int == be_value(entry@.subrange(offset as int, offset + i)),
        decreases width - i,
    {
        let b = entry[offset + i];
        proof {
            assert(entry@.subrange(offset as int, offset + i + 1).drop_last() == entry@.subrange(offset as int, offset + i));
            assert(((val << 8u64) | (b as u64)) as int == (val * 256 + b) % 0x1_0000_0000_0000_0000) by (bit_vector);
        }
        val = (val << 8) | (b as u64);
        i += 1;
    }
    val
}

// ---------------------------------------------------------------------------
// `startxref` discovery
// ---------------------------------------------------------------------------

/// `s` holds `startxref` at `i`.
pub open spec fn marker_at(s: Seq<u8>, i: int) -> bool {
    0 <= i && i + 9 <= s.len() && s.subrange(i, i + 9) == lit("startxref")
}

proof fn lemma_startxref_len()
    ensures lit("startxref").len() == 9,
{
    reveal_strlit("startxref");
    vstd::string::is_ascii_spec_bytes("startxref");
}

/// The last `startxref` that starts at or after `lo` and at or before `i`.
pub open spec fn last_marker(s: Seq<u8>, lo: int, i: int) -> Option<int>
    decreases i - lo + 1,
{
    if i < lo {
        None
    } else if marker_at(s, i) {
        Some(i)
    } else {
        last_marker(s, lo, i - 1)
    }
}

/// The offset that the last `startxref` within the last `tail` bytes names.
pub open spec fn startxref_spec(data: Seq<u8>, tail: int) -> Option<u64> {
    let lo = if data.len() > tail { data.len() - tail } else { 0 };
    match last_marker(data, lo, data.len() - 9) {
        None => None,
        Some(m) => {
            let a = skip_plain_ws(data, m + 9);
            let b = digits_end(data, a);
            if a == b {
                None
            } else {
                match unsigned_value(data.subrange(a, b), 0xffff_ffff_ffff_ffff) {
                    Some(v) => Some(v as u64),
                    None => None,
                }
            }
        }
    }
}

/// Scans the last `tail_size` bytes of `data` backwards for `startxref` and
/// returns the byte offset it names.
pub fn find_startxref(data: &[u8], tail_size: usize) -> (r: Result<u64, ParseError>)
    ensures
        match startxref_spec(data@, tail_size as int) {
            Some(v) => r == Ok::<u64, ParseError>(v),
            None => r is Err,
        },
{
    let lo: usize = if data.len() > tail_size { data.len() - tail_size } else { 0 };
    proof { lemma_startxref_len(); }
    if data.len() < 9 {
        proof { assert(last_marker(data@, lo as int, data@.len() - 9) is None); }
        return Err(ParseError::new("'startxref' keyword not found in tail", data.len()));
    }
    let mut cand: usize = data.len() - 8;
    let mut found = false;
    while !found && cand > lo
        invariant
            9 <= data@.len(),
            lit("startxref").len() == 9,
            cand <= data@.len() - 8,
            lo <= data@.len(),
            lo == (if data@.len() > tail_size { data@.len() - tail_size } else { 0 }),
            !found ==> last_marker(data@, lo as int, data@.len() - 9) == last_marker(data@, lo as int, cand - 1),
            found ==> cand >= 1 && cand - 1 >= lo && last_marker(data@, lo as int, data@.len() - 9) == Some(cand - 1),
        decreases cand, if found { 0int } else { 1int },
    {
        if starts_with_at(data, cand - 1, "startxref".as_bytes()) {
            found = true;
        } else {
            cand -= 1;
        }
    }
    if !found {
        return Err(ParseError::new("'startxref' keyword not found in tail", data.len()));
    }
    let i = cand - 1;
    let a = skip_ws_at(data, i + 9);
    let b = digits_end_at(data, a);
    if a == b {
        return Err(ParseError::new("invalid startxref offset", i));
    }
    match parse_unsigned(&data[a..b], 0xffff_ffff_ffff_ffff) {
        Some(v) => Ok(v),
        None => Err(ParseError::new("startxref offset not a valid integer", 0)),
    }
}

/// Reads the `length` bytes of a stream body that starts at `stream_start`
/// (just after the `stream` keyword), skipping one `\r`, `\n` or `\r\n`.
pub fn read_stream_data(data: &[u8], stream_start: usize, length: usize) -> (r: Result<Vec<u8>, ParseError>)
    ensures
        ({
            let p1 = if stream_start < data@.len() && data@[stream_start as int] == 0x0d { stream_start + 1 } else { stream_start as int };
            let p2 = if p1 < data@.len() && data@[p1] == 0x0a { p1 + 1 } else { p1 };
            if p2 + length > data@.len() {
                r is Err
            } else {
                r is Ok && r->Ok_0@ == data@.subrange(p2, p2 + length)
            }
        }),
{
    let mut pos = stream_start;
    if pos < data.len() && data[pos] == 0x0d {
        pos += 1;
    }
    if pos < data.len() && data[pos] == 0x0a {
        pos += 1;
    }
    if pos > data.len() || length > data.len() - pos {
        return Err(ParseError::new("stream data extends past EOF", pos));
    }
    Ok(clone_bytes(&data[pos..pos + length]))
}

// ---------------------------------------------------------------------------
// Section parsing
// ---------------------------------------------------------------------------

/// A table's entries and trailer.
pub type XT = (Seq<(ObjectId, XRefEntry)>, Seq<(Seq<u8>, CosValue)>);

/// `t` with `e` recorded for `id` unless `id` is recorded already.
pub open spec fn xt_insert(t: XT, id: ObjectId, e: XRefEntry) -> XT {
    if xref_find(t.0, id) is Some { t } else { (t.0.push((id, e)), t.1) }
}

/// The entry lines of a subsection from `pos` of the section text `s`:
/// objects `first + i` onward, `count` in all; the table and where reading
/// stops.
#[verifier::opaque]
pub open spec fn kw_entries(s: Seq<u8>, pos: int, first: u32, count: u32, i: int, t: XT) -> Option<(XT, int)>
    decreases count - i,
{
    if i >= count || i < 0 {
        Some((t, pos))
    } else if pos > s.len() || 20 > s.len() - pos {
        None
    } else {
        let len: int = if 21 <= s.len() - pos && (s[pos + 20] == 0x0d || s[pos + 20] == 0x0a) { 21 } else { 20 };
        if first + i > u32::MAX {
            None
        } else {
            match entry_line(s.subrange(pos, pos + len), (first + i) as u32) {
                None => None,
                Some((id, e)) => kw_entries(s, pos + len, first, count, i + 1, xt_insert(t, id, e)),
            }
        }
    }
}

/// The subsections of a classic table from `pos` up to `trailer`: the
/// table and the position after the keyword.
#[verifier::opaque]
pub open spec fn kw_rows(s: Seq<u8>, pos: int, t: XT) -> Option<(XT, int)>
    decreases s.len() - pos,
{
    let p = skip_plain_ws(s, pos);
    if pos < 0 || p < pos {
        None
    } else if p + 7 <= s.len() && s.subrange(p, p + 7) == lit("trailer") {
        Some((t, p + 7))
    } else if p >= s.len() {
        None
    } else {
        match ascii_u32(s.subrange(p, s.len() as int)) {
            None => None,
            Some((first, c1)) => {
                let p2 = skip_plain_ws(s, p + c1);
                match ascii_u32(s.subrange(p2, s.len() as int)) {
                    None => None,
                    Some((count, c2)) => {
                        let q = p2 + c2;
                        let q1 = if q < s.len() && s[q] == 0x0d { q + 1 } else { q };
                        let p3 = if q1 < s.len() && s[q1] == 0x0a { q1 + 1 } else { q1 };
                        match kw_entries(s, p3, first, count, 0, t) {
                            None => None,
                            Some((t2, p4)) => if pos < p4 <= s.len() { kw_rows(s, p4, t2) } else { None },
                        }
                    },
                }
            },
        }
    }
}

/// An integer item as a byte count (0 when not an integer).
pub open spec fn int_usize(v: CosValue) -> usize {
    match v { CosValue::Integer(n) => n as usize, _ => 0usize }
}

/// An integer item as `u32` (0 when not an integer).
pub open spec fn int_u32v(v: CosValue) -> u32 {
    match v { CosValue::Integer(n) => n as u32, _ => 0u32 }
}

/// The entries of one `/Index` subsection of a cross-reference stream from
/// entry `i`, reading the decoded data `dec` from `bp` with field widths
/// `w`: the table and where reading stops.
#[verifier::opaque]
pub open spec fn xs_pair(dec: Seq<u8>, w: (usize, usize, usize), first: u32, count: u32, i: int, bp: int, t: XT)
    -> Option<(XT, int)>
    decreases count - i,
{
    if i >= count || i < 0 {
        Some((t, bp))
    } else {
        let es = w.0 + w.1 + w.2;
        if bp < 0 || bp > dec.len() || es > dec.len() - bp {
            None
        } else {
            let et: int = if w.0 == 0 { 1 } else { be_value(dec.subrange(bp, bp + w.0)) };
            let f2 = be_value(dec.subrange(bp + w.0, bp + w.0 + w.1));
            let f3 = be_value(dec.subrange(bp + w.0 + w.1, bp + es));
            if first + i > u32::MAX {
                None
            } else {
                let kind = (et as u64) as u8;
                let generation: u16 = if kind == 2 { 0u16 } else { (f3 as u64) as u16 };
                let id = ObjectId { object_number: (first + i) as u32, generation };
                let e = if kind == 0 {
                    Some(XRefEntry::Free { next_free: (f2 as u64) as u32, generation: (f3 as u64) as u16 })
                } else if kind == 1 {
                    Some(XRefEntry::InUse { offset: f2 as u64, generation: (f3 as u64) as u16 })
                } else if kind == 2 {
                    Some(XRefEntry::Compressed { stream_object_number: (f2 as u64) as u32, index_in_stream: (f3 as u64) as u32 })
                } else {
                    None
                };
                match e {
                    None => None,
                    Some(e) => xs_pair(dec, w, first, count, i + 1, bp + es, xt_insert(t, id, e)),
                }
            }
        }
    }
}

/// The entries of the subsections `pairs` from `p`.
#[verifier::opaque]
pub open spec fn xs_pairs(dec: Seq<u8>, w: (usize, usize, usize), pairs: Seq<(u32, u32)>, p: int, bp: int, t: XT)
    -> Option<XT>
    decreases pairs.len() - p,
{
    if p >= pairs.len() || p < 0 {
        Some(t)
    } else {
        match xs_pair(dec, w, pairs[p].0, pairs[p].1, 0, bp, t) {
            None => None,
            Some((t2, bp2)) => xs_pairs(dec, w, pairs, p + 1, bp2, t2),
        }
    }
}

/// The `/Index` pairs of a cross-reference stream dictionary: items two by
/// two, or one subsection of `/Size` entries from 0; `None` when the array
/// has an odd length.
pub open spec fn xs_index(d: Seq<(Seq<u8>, CosValue)>) -> Option<Seq<(u32, u32)>> {
    let size: u32 = match dict_lookup(d, lit("Size")) { Some(CosValue::Integer(n)) => (n as i64) as u32, _ => 0u32 };
    match dict_lookup(d, lit("Index")) {
        Some(CosValue::Array(a)) => if a.len() % 2 != 0 {
            None
        } else {
            Some(Seq::new((a.len() / 2) as nat, |k: int| (int_u32v(a[2 * k]), int_u32v(a[2 * k + 1]))))
        },
        _ => Some(seq![(0u32, size)]),
    }
}

/// The entries of a cross-reference stream object `(d, data)` read from
/// the section text `slice`: data backfilled when the parser left it empty,
/// decoded (or kept as it is when it does not decode); `None` when it is
/// not an `/XRef` stream with a usable `/W` and `/Index`, or its entries do
/// not read.
#[verifier::opaque]
pub open spec fn xs_table(d: Seq<(Seq<u8>, CosValue)>, data: Seq<u8>, slice: Seq<u8>, t: XT) -> Option<XT> {
    let data1 = if data.len() == 0 {
        xref_backfill(slice, match dict_lookup(d, lit("Length")) { Some(CosValue::Integer(n)) => (n as usize) as int, _ => 0 })
    } else {
        data
    };
    match xs_layout(d) {
        None => None,
        Some((w, pairs)) => {
            let dec = match decode_spec(data1, dict_lookup(d, lit("Filter"))) {
                Decoded::Out(o) => o,
                _ => data1,
            };
            xs_pairs(dec, w, pairs, 0, 0, t)
        },
    }
}

/// The field widths and `/Index` subsections of a cross-reference stream
/// dictionary; `None` when it is not `/Type /XRef`, `/W` is not three
/// widths with a non-zero sum that fits in `usize`, or `/Index` has an odd
/// length.
pub open spec fn xs_layout(d: Seq<(Seq<u8>, CosValue)>) -> Option<((usize, usize, usize), Seq<(u32, u32)>)> {
    if dict_lookup(d, lit("Type")) != Some(CosValue::Name(lit("XRef"))) {
        None
    } else {
        match dict_lookup(d, lit("W")) {
            Some(CosValue::Array(a)) => if a.len() != 3 {
                None
            } else {
                let w = (int_usize(a[0]), int_usize(a[1]), int_usize(a[2]));
                if w.0 + w.1 > usize::MAX || w.0 + w.1 + w.2 > usize::MAX || w.0 + w.1 + w.2 == 0 {
                    None
                } else {
                    match xs_index(d) {
                        None => None,
                        Some(pairs) => Some((w, pairs)),
                    }
                }
            },
            _ => None,
        }
    }
}

/// Reading the cross-reference section at `offset` of `data` and the
/// sections its `Prev` chain names, at most `budget` sections, `visited`
/// the offsets read so far: the table and the offsets read; `None` on an
/// error.
#[verifier::opaque]
pub open spec fn section_spec(data: Seq<u8>, offset: u64, t: XT, budget: int, visited: Seq<u64>) -> Option<(XT, Seq<u64>)>
    decreases budget, 2int, 0int,
{
    if offset >= data.len() || budget <= 0 || visited.contains(offset) {
        None
    } else {
        let v2 = visited.push(offset);
        let start = offset as int;
        let first = skip_plain_ws(data, start);
        if first + 4 <= data.len() && data.subrange(first, first + 4) == lit("xref") {
            kw_section_spec(data, start, t, budget, v2)
        } else {
            xs_section_spec(data, start, t, budget, v2)
        }
    }
}

/// The text at `start` begins, after white space, with `xref`.
pub open spec fn kw_header_ok(data: Seq<u8>, start: int) -> bool {
    let s = data.subrange(start, data.len() as int);
    let p = skip_plain_ws(s, 0);
    p + 4 <= s.len() && s.subrange(p, p + 4) == lit("xref")
}

/// A classic section at `start`: `xref`, subsections, `trailer` and the
/// trailer dictionary, then its `Prev` chain.
pub open spec fn kw_section_spec(data: Seq<u8>, start: int, t: XT, budget: int, visited: Seq<u64>) -> Option<(XT, Seq<u64>)>
    decreases budget, 1int, 0int,
{
    let s = data.subrange(start, data.len() as int);
    let pos = skip_plain_ws(s, 0);
    if budget <= 0 || start < 0 || start >= data.len() || !(pos + 4 <= s.len() && s.subrange(pos, pos + 4) == lit("xref")) {
        None
    } else {
        match kw_rows(s, pos + 4, t) {
            None => None,
            Some((t2, p)) => kw_trailer_spec(data, start + p, t2, budget, visited),
        }
    }
}

proof fn lemma_kw_section_unfold(data: Seq<u8>, start: int, t: XT, budget: int, visited: Seq<u64>)
    requires
        budget > 0,
        0 <= start < data.len(),
        skip_plain_ws(data.subrange(start, data.len() as int), 0) + 4 <= data.len() - start,
        data.subrange(start, data.len() as int).subrange(skip_plain_ws(data.subrange(start, data.len() as int), 0), skip_plain_ws(data.subrange(start, data.len() as int), 0) + 4) == lit("xref"),
    ensures
        kw_section_spec(data, start, t, budget, visited) == match kw_rows(data.subrange(start, data.len() as int), skip_plain_ws(data.subrange(start, data.len() as int), 0) + 4, t) {
            None => None,
            Some((t2, p)) => kw_trailer_spec(data, start + p, t2, budget, visited),
        },
{
    reveal(section_spec);
    reveal(kw_trailer_spec);
    reveal(prev_spec);
    reveal_with_fuel(kw_section_spec, 2);
}

/// The trailer dictionary of a classic section at `tpos`, then its `Prev`
/// chain.
#[verifier::opaque]
pub open spec fn kw_trailer_spec(data: Seq<u8>, tpos: int, t: XT, budget: int, visited: Seq<u64>) -> Option<(XT, Seq<u64>)>
    decreases budget, 0int, 1int,
{
    if budget <= 0 || tpos < 0 || tpos > data.len() {
        None
    } else {
        match parse_value(data.subrange(tpos, data.len() as int), 0) {
            ParseOut::Obj(CosValue::Dict(d), _) => prev_spec(data, d, t, budget, visited),
            _ => None,
        }
    }
}

/// A cross-reference stream section at `start`, then its `Prev` chain.
pub open spec fn xs_section_spec(data: Seq<u8>, start: int, t: XT, budget: int, visited: Seq<u64>) -> Option<(XT, Seq<u64>)>
    decreases budget, 1int, 0int,
{
    let slice = data.subrange(start, data.len() as int);
    if budget <= 0 || start < 0 || start >= data.len() {
        None
    } else {
        match parse_indirect(slice, 0) {
            IndirectOut::Def(_, _, CosValue::Stream(d, sd), _) => match xs_table(d, sd, slice, t) {
                None => None,
                Some(t2) => prev_spec(data, d, t2, budget, visited),
            },
            _ => None,
        }
    }
}

proof fn lemma_xs_section_unfold(data: Seq<u8>, start: int, t: XT, budget: int, visited: Seq<u64>)
    requires
        budget > 0,
        0 <= start < data.len(),
    ensures
        xs_section_spec(data, start, t, budget, visited) == match parse_indirect(data.subrange(start, data.len() as int), 0) {
            IndirectOut::Def(_, _, CosValue::Stream(d, sd), _) => match xs_table(d, sd, data.subrange(start, data.len() as int), t) {
                None => None,
                Some(t2) => prev_spec(data, d, t2, budget, visited),
            },
            _ => None,
        },
{
    reveal(section_spec);
    reveal(kw_trailer_spec);
    reveal(prev_spec);
    reveal_with_fuel(xs_section_spec, 2);
}

/// Merging a section's trailer `d`, then following its `Prev` offset.
#[verifier::opaque]
pub open spec fn prev_spec(data: Seq<u8>, d: Seq<(Seq<u8>, CosValue)>, t: XT, budget: int, visited: Seq<u64>) -> Option<(XT, Seq<u64>)>
    decreases budget, 0int, 0int,
{
    let t2 = (t.0, merge_from(t.1, d, 0));
    if budget <= 0 {
        None
    } else {
        match dict_lookup(d, lit("Prev")) {
            Some(CosValue::Integer(n)) => if (n as i64) > 0 {
                section_spec(data, (n as i64) as u64, t2, budget - 1, visited)
            } else {
                Some((t2, visited))
            },
            _ => Some((t2, visited)),
        }
    }
}

/// `b` keeps what `a` holds: every recorded entry, in place, and every
/// trailer key with its value.
pub open spec fn xt_keeps(a: XT, b: XT) -> bool {
    &&& extends(a.0, b.0)
    &&& forall|k: Seq<u8>| #[trigger] dict_lookup(a.1, k) is Some ==> dict_lookup(b.1, k) == dict_lookup(a.1, k)
}

proof fn lemma_keeps_trans(a: XT, b: XT, c: XT)
    requires xt_keeps(a, b), xt_keeps(b, c),
    ensures xt_keeps(a, c),
{
    assert forall|k: Seq<u8>| #[trigger] dict_lookup(a.1, k) is Some implies dict_lookup(c.1, k) == dict_lookup(a.1, k) by {
        assert(dict_lookup(b.1, k) is Some);
    }
}

proof fn lemma_insert_keeps(t: XT, id: ObjectId, e: XRefEntry)
    ensures xt_keeps(t, xt_insert(t, id, e)),
{
}

proof fn lemma_merge_keeps(acc: Seq<(Seq<u8>, CosValue)>, d: Seq<(Seq<u8>, CosValue)>, i: int, t0: Seq<(ObjectId, XRefEntry)>)
    ensures xt_keeps((t0, acc), (t0, merge_from(acc, d, i))),
    decreases d.len() - i,
{
    if 0 <= i < d.len() {
        let next = if dict_lookup(acc, d[i].0) is Some { acc } else { dict_insert(acc, d[i].0, d[i].1) };
        assert forall|k: Seq<u8>| #[trigger] dict_lookup(acc, k) is Some implies dict_lookup(next, k) == dict_lookup(acc, k) by {
            crate::cos::lemma_lookup_insert(acc, d[i].0, d[i].1, k);
        }
        lemma_merge_keeps(next, d, i + 1, t0);
        lemma_keeps_trans((t0, acc), (t0, next), (t0, merge_from(acc, d, i)));
    }
}

/// A merged trailer answers for `k` what the accumulated trailer held,
/// else the first value `d` gives `k` from entry `i` on.
proof fn lemma_merge_lookup(acc: Seq<(Seq<u8>, CosValue)>, d: Seq<(Seq<u8>, CosValue)>, i: int, k: Seq<u8>)
    requires 0 <= i <= d.len(),
    ensures
        dict_lookup(merge_from(acc, d, i), k) == if dict_lookup(acc, k) is Some {
            dict_lookup(acc, k)
        } else {
            let j = crate::cos::find_key_from(d, k, i);
            if j >= 0 { Some(d[j].1) } else { None }
        },
    decreases d.len() - i,
{
    crate::cos::lemma_find_key_from(d, k, i);
    if i < d.len() {
        let next = if dict_lookup(acc, d[i].0) is Some { acc } else { dict_insert(acc, d[i].0, d[i].1) };
        crate::cos::lemma_lookup_insert(acc, d[i].0, d[i].1, k);
        lemma_merge_lookup(next, d, i + 1, k);
        crate::cos::lemma_find_key_from(d, k, i + 1);
    }
}

proof fn lemma_entries_keeps(s: Seq<u8>, pos: int, first: u32, count: u32, i: int, t: XT)
    ensures kw_entries(s, pos, first, count, i, t) matches Some((t2, _)) ==> xt_keeps(t, t2) && t2.1 == t.1,
    decreases count - i,
{
    reveal(kw_entries);
    if !(i >= count || i < 0) && !(pos > s.len() || 20 > s.len() - pos) {
        let len: int = if 21 <= s.len() - pos && (s[pos + 20] == 0x0d || s[pos + 20] == 0x0a) { 21 } else { 20 };
        if first + i <= u32::MAX {
            match entry_line(s.subrange(pos, pos + len), (first + i) as u32) {
                Some((id, e)) => {
                    lemma_insert_keeps(t, id, e);
                    lemma_entries_keeps(s, pos + len, first, count, i + 1, xt_insert(t, id, e));
                    if kw_entries(s, pos, first, count, i, t) is Some {
                        lemma_keeps_trans(t, xt_insert(t, id, e), kw_entries(s, pos, first, count, i, t)->Some_0.0);
                    }
                }
                None => {}
            }
        }
    }
}

proof fn lemma_rows_keeps(s: Seq<u8>, pos: int, t: XT)
    ensures kw_rows(s, pos, t) matches Some((t2, _)) ==> xt_keeps(t, t2) && t2.1 == t.1,
    decreases s.len() - pos,
{
    reveal(kw_rows);
    let p = skip_plain_ws(s, pos);
    if !(pos < 0 || p < pos) && !(p + 7 <= s.len() && s.subrange(p, p + 7) == lit("trailer")) && p < s.len() {
        match ascii_u32(s.subrange(p, s.len() as int)) {
            Some((first, c1)) => {
                let p2 = skip_plain_ws(s, p + c1);
                match ascii_u32(s.subrange(p2, s.len() as int)) {
                    Some((count, c2)) => {
                        let q = p2 + c2;
                        let q1 = if q < s.len() && s[q] == 0x0d { q + 1 } else { q };
                        let p3 = if q1 < s.len() && s[q1] == 0x0a { q1 + 1 } else { q1 };
                        lemma_entries_keeps(s, p3, first, count, 0, t);
                        match kw_entries(s, p3, first, count, 0, t) {
                            Some((t2, p4)) => if pos < p4 <= s.len() {
                                lemma_rows_keeps(s, p4, t2);
                                if kw_rows(s, p4, t2) is Some {
                                    lemma_keeps_trans(t, t2, kw_rows(s, p4, t2)->Some_0.0);
                                }
                            },
                            None => {}
                        }
                    }
                    None => {}
                }
            }
            None => {}
        }
    }
}

proof fn lemma_pair_keeps(dec: Seq<u8>, w: (usize, usize, usize), first: u32, count: u32, i: int, bp: int, t: XT)
    ensures xs_pair(dec, w, first, count, i, bp, t) matches Some((t2, _)) ==> xt_keeps(t, t2),
    decreases count - i,
{
    reveal(xs_pair);
    if !(i >= count || i < 0) {
        let es = w.0 + w.1 + w.2;
        if !(bp < 0 || bp > dec.len() || es > dec.len() - bp) {
            let et: int = if w.0 == 0 { 1 } else { be_value(dec.subrange(bp, bp + w.0)) };
            let f2 = be_value(dec.subrange(bp + w.0, bp + w.0 + w.1));
            let f3 = be_value(dec.subrange(bp + w.0 + w.1, bp + es));
            if first + i <= u32::MAX {
                let kind = (et as u64) as u8;
                let generation: u16 = if kind == 2 { 0u16 } else { (f3 as u64) as u16 };
                let id = ObjectId { object_number: (first + i) as u32, generation };
                let e = if kind == 0 {
                    Some(XRefEntry::Free { next_free: (f2 as u64) as u32, generation: (f3 as u64) as u16 })
                } else if kind == 1 {
                    Some(XRefEntry::InUse { offset: f2 as u64, generation: (f3 as u64) as u16 })
                } else if kind == 2 {
                    Some(XRefEntry::Compressed { stream_object_number: (f2 as u64) as u32, index_in_stream: (f3 as u64) as u32 })
                } else {
                    None
                };
                match e {
                    Some(e) => {
                        lemma_insert_keeps(t, id, e);
                        lemma_pair_keeps(dec, w, first, count, i + 1, bp + es, xt_insert(t, id, e));
                        if xs_pair(dec, w, first, count, i, bp, t) is Some {
                            lemma_keeps_trans(t, xt_insert(t, id, e), xs_pair(dec, w, first, count, i, bp, t)->Some_0.0);
                        }
                    }
                    None => {}
                }
            }
        }
    }
}

proof fn lemma_pairs_keeps(dec: Seq<u8>, w: (usize, usize, usize), pairs: Seq<(u32, u32)>, p: int, bp: int, t: XT)
    ensures xs_pairs(dec, w, pairs, p, bp, t) matches Some(t2) ==> xt_keeps(t, t2),
    decreases pairs.len() - p,
{
    reveal(xs_pairs);
    if !(p >= pairs.len() || p < 0) {
        lemma_pair_keeps(dec, w, pairs[p].0, pairs[p].1, 0, bp, t);
        match xs_pair(dec, w, pairs[p].0, pairs[p].1, 0, bp, t) {
            Some((t2, bp2)) => {
                lemma_pairs_keeps(dec, w, pairs, p + 1, bp2, t2);
                if xs_pairs(dec, w, pairs, p + 1, bp2, t2) is Some {
                    lemma_keeps_trans(t, t2, xs_pairs(dec, w, pairs, p + 1, bp2, t2)->Some_0);
                }
            }
            None => {}
        }
    }
}

proof fn lemma_xs_table_keeps(d: Seq<(Seq<u8>, CosValue)>, data: Seq<u8>, slice: Seq<u8>, t: XT)
    ensures xs_table(d, data, slice, t) matches Some(t2) ==> xt_keeps(t, t2),
{
    reveal(xs_table);
    let data1 = if data.len() == 0 {
        xref_backfill(slice, match dict_lookup(d, lit("Length")) { Some(CosValue::Integer(n)) => (n as usize) as int, _ => 0 })
    } else {
        data
    };
    match xs_layout(d) {
        Some((w, pairs)) => {
            let dec = match decode_spec(data1, dict_lookup(d, lit("Filter"))) {
                Decoded::Out(o) => o,
                _ => data1,
            };
            lemma_pairs_keeps(dec, w, pairs, 0, 0, t);
        }
        None => {}
    }
}

/// Reading a section and its `Prev` chain keeps every entry and trailer
/// key already read.
proof fn lemma_section_keeps(data: Seq<u8>, offset: u64, t: XT, budget: int, visited: Seq<u64>)
    ensures section_spec(data, offset, t, budget, visited) matches Some((r, _)) ==> xt_keeps(t, r),
    decreases budget, 2int, 0int,
{
    reveal(section_spec);
    if !(offset >= data.len() || budget <= 0 || visited.contains(offset)) {
        let v2 = visited.push(offset);
        let start = offset as int;
        let first = skip_plain_ws(data, start);
        if first + 4 <= data.len() && data.subrange(first, first + 4) == lit("xref") {
            lemma_kw_section_keeps(data, start, t, budget, v2);
        } else {
            lemma_xs_section_keeps(data, start, t, budget, v2);
        }
    }
}

proof fn lemma_kw_section_none(data: Seq<u8>, start: int, t: XT, budget: int, visited: Seq<u64>)
    requires !(budget > 0 && 0 <= start < data.len() && kw_header_ok(data, start)),
    ensures kw_section_spec(data, start, t, budget, visited) is None,
{
    reveal(section_spec);
    reveal(kw_trailer_spec);
    reveal(prev_spec);
    reveal_with_fuel(kw_section_spec, 2);
}

proof fn lemma_xs_section_none(data: Seq<u8>, start: int, t: XT, budget: int, visited: Seq<u64>)
    requires !(budget > 0 && 0 <= start < data.len()),
    ensures xs_section_spec(data, start, t, budget, visited) is None,
{
    reveal(section_spec);
    reveal(kw_trailer_spec);
    reveal(prev_spec);
    reveal_with_fuel(xs_section_spec, 2);
}

proof fn lemma_kw_section_keeps(data: Seq<u8>, start: int, t: XT, budget: int, visited: Seq<u64>)
    ensures kw_section_spec(data, start, t, budget, visited) matches Some((r, _)) ==> xt_keeps(t, r),
    decreases budget, 1int, 0int,
{
    let s = data.subrange(start, data.len() as int);
    let pos = skip_plain_ws(s, 0);
    if budget > 0 && 0 <= start < data.len() && kw_header_ok(data, start) {
        lemma_kw_section_unfold(data, start, t, budget, visited);
        lemma_rows_keeps(s, pos + 4, t);
        match kw_rows(s, pos + 4, t) {
            Some((t2, p)) => {
                lemma_kw_trailer_keeps(data, start + p, t2, budget, visited);
                if kw_trailer_spec(data, start + p, t2, budget, visited) is Some {
                    lemma_keeps_trans(t, t2, kw_trailer_spec(data, start + p, t2, budget, visited)->Some_0.0);
                }
            }
            None => {}
        }
    } else {
        lemma_kw_section_none(data, start, t, budget, visited);
    }
}

#[verifier::spinoff_prover]
#[verifier::rlimit(60)]
proof fn lemma_kw_trailer_keeps(data: Seq<u8>, tpos: int, t: XT, budget: int, visited: Seq<u64>)
    ensures
        kw_trailer_spec(data, tpos, t, budget, visited) matches Some((r, _)) ==> xt_keeps(t, r),
        kw_trailer_spec(data, tpos, t, budget, visited) matches Some((r, _)) ==> (
            parse_value(data.subrange(tpos, data.len() as int), 0) matches ParseOut::Obj(CosValue::Dict(d), _)
                && xt_keeps((t.0, merge_from(t.1, d, 0)), r)),
    decreases budget, 0int, 1int,
{
    reveal(kw_trailer_spec);
    if !(budget <= 0 || tpos < 0 || tpos > data.len()) {
        let pv = parse_value(data.subrange(tpos, data.len() as int), 0);
        match pv {
            ParseOut::Obj(CosValue::Dict(d), _) => lemma_prev_keeps(data, d, t, budget, visited),
            _ => {}
        }
    }
}

#[verifier::spinoff_prover]
#[verifier::rlimit(60)]
proof fn lemma_xs_section_keeps(data: Seq<u8>, start: int, t: XT, budget: int, visited: Seq<u64>)
    ensures xs_section_spec(data, start, t, budget, visited) matches Some((r, _)) ==> xt_keeps(t, r),
    decreases budget, 1int, 0int,
{
    if budget > 0 && 0 <= start < data.len() {
        lemma_xs_section_unfold(data, start, t, budget, visited);
        let slice = data.subrange(start, data.len() as int);
        let pi = parse_indirect(slice, 0);
        match pi {
            IndirectOut::Def(_, _, CosValue::Stream(d, sd), _) => {
                lemma_xs_table_keeps(d, sd, slice, t);
                match xs_table(d, sd, slice, t) {
                    Some(t2) => {
                        lemma_prev_keeps(data, d, t2, budget, visited);
                        if prev_spec(data, d, t2, budget, visited) is Some {
                            lemma_keeps_trans(t, t2, prev_spec(data, d, t2, budget, visited)->Some_0.0);
                        }
                    }
                    None => {}
                }
            }
            _ => {}
        }
    } else {
        lemma_xs_section_none(data, start, t, budget, visited);
    }
}

#[verifier::spinoff_prover]
#[verifier::rlimit(60)]
proof fn lemma_prev_keeps(data: Seq<u8>, d: Seq<(Seq<u8>, CosValue)>, t: XT, budget: int, visited: Seq<u64>)
    ensures
        prev_spec(data, d, t, budget, visited) matches Some((r, _)) ==> xt_keeps(t, r)
            && xt_keeps((t.0, merge_from(t.1, d, 0)), r),
    decreases budget, 0int, 0int,
{
    reveal(prev_spec);
    let t2 = (t.0, merge_from(t.1, d, 0));
    lemma_merge_keeps(t.1, d, 0, t.0);
    if budget > 0 {
        match dict_lookup(d, lit("Prev")) {
            Some(CosValue::Integer(n)) => if (n as i64) > 0 {
                lemma_section_keeps(data, (n as i64) as u64, t2, budget - 1, visited);
                if section_spec(data, (n as i64) as u64, t2, budget - 1, visited) is Some {
                    lemma_keeps_trans(t, t2, section_spec(data, (n as i64) as u64, t2, budget - 1, visited)->Some_0.0);
                }
            },
            _ => {}
        }
    }
}

/// A recorded entry stays the one found for its id in a table that grew.
pub proof fn lemma_extends_find(a: Seq<(ObjectId, XRefEntry)>, b: Seq<(ObjectId, XRefEntry)>, id: ObjectId, i: int)
    requires extends(a, b), 0 <= i <= a.len(), xref_find_from(a, id, i) is Some,
    ensures xref_find_from(b, id, i) == xref_find_from(a, id, i),
    decreases a.len() - i,
{
    if a[i].0 != id {
        lemma_extends_find(a, b, id, i + 1);
    }
}

/// A newer section wins over the older ones its `Prev` chain names: when a
/// classic section at `start` reads, every id its own subsections record
/// keeps that entry in the merged table, and every key of the trailer read
/// so far keeps its value; the older sections only add ids and keys that
/// are missing.
pub proof fn lemma_newer_section_wins(data: Seq<u8>, start: int, t: XT, budget: int, visited: Seq<u64>)
    requires
        0 <= start < data.len(),
        budget > 0,
        kw_header_ok(data, start),
        kw_section_spec(data, start, t, budget, visited) is Some,
    ensures
        ({
            let s = data.subrange(start, data.len() as int);
            let rows = kw_rows(s, skip_plain_ws(s, 0) + 4, t);
            let r = kw_section_spec(data, start, t, budget, visited)->Some_0.0;
            &&& rows is Some
            &&& forall|id: ObjectId| #[trigger] xref_find(rows->Some_0.0.0, id) is Some
                ==> xref_find(r.0, id) == xref_find(rows->Some_0.0.0, id)
            &&& forall|k: Seq<u8>| #[trigger] dict_lookup(t.1, k) is Some ==> dict_lookup(r.1, k) == dict_lookup(t.1, k)
            &&& parse_value(data.subrange(start + rows->Some_0.1, data.len() as int), 0) matches ParseOut::Obj(CosValue::Dict(d), _)
            &&& forall|k: Seq<u8>| dict_lookup(t.1, k) is None && #[trigger] dict_lookup(d, k) is Some
                ==> dict_lookup(r.1, k) == dict_lookup(d, k)
        }),
{
    let s = data.subrange(start, data.len() as int);
    let pos = skip_plain_ws(s, 0);
    let r = kw_section_spec(data, start, t, budget, visited)->Some_0.0;
    lemma_kw_section_keeps(data, start, t, budget, visited);
    lemma_kw_section_unfold(data, start, t, budget, visited);
    let (t2, p) = kw_rows(s, pos + 4, t)->Some_0;
    lemma_kw_trailer_keeps(data, start + p, t2, budget, visited);
    assert forall|id: ObjectId| #[trigger] xref_find(t2.0, id) is Some implies xref_find(r.0, id) == xref_find(t2.0, id) by {
        lemma_extends_find(t2.0, r.0, id, 0);
    }
    lemma_rows_keeps(s, pos + 4, t);
    let d = parse_value(data.subrange(start + p, data.len() as int), 0)->Obj_0->Dict_0;
    assert forall|k: Seq<u8>| dict_lookup(t.1, k) is None && #[trigger] dict_lookup(d, k) is Some
        implies dict_lookup(r.1, k) == dict_lookup(d, k) by {
        lemma_merge_lookup(t.1, d, 0, k);
    }
}

/// White space skipped in a suffix is white space skipped in the whole.
proof fn lemma_skip_shift(data: Seq<u8>, n: int, i: int)
    requires 0 <= n <= data.len(), 0 <= i <= data.len() - n,
    ensures skip_plain_ws(data, n + i) == n + skip_plain_ws(data.subrange(n, data.len() as int), i),
    decreases data.len() - n - i,
{
    let s = data.subrange(n, data.len() as int);
    if i < s.len() {
        assert(data[n + i] == s[i]);
        if is_ws(s[i]) {
            lemma_skip_shift(data, n, i + 1);
        }
    }
}

/// An older section fills in: when the classic section at `start` names,
/// by `Prev`, a classic section at `n` not read before, the older section's
/// subsections are read on top of the newer section's rows (whose entries
/// stay first), and every id they record ends up, in the merged table,
/// with the entry they give it: its own entry for an id the newer section
/// does not record.
pub proof fn lemma_older_section_fills_in(data: Seq<u8>, start: int, t: XT, budget: int, visited: Seq<u64>, n: int)
    requires
        0 <= start < data.len(),
        budget > 1,
        kw_header_ok(data, start),
        kw_section_spec(data, start, t, budget, visited) is Some,
        0 < n < data.len(),
        n <= i64::MAX,
        kw_header_ok(data, n),
        !visited.contains(n as u64),
        ({
            let s = data.subrange(start, data.len() as int);
            &&& kw_rows(s, skip_plain_ws(s, 0) + 4, t) is Some
            &&& parse_value(data.subrange(start + kw_rows(s, skip_plain_ws(s, 0) + 4, t)->Some_0.1, data.len() as int), 0)
                matches ParseOut::Obj(CosValue::Dict(d), _) && dict_lookup(d, lit("Prev")) == Some(CosValue::Integer(n))
        }),
    ensures
        ({
            let s = data.subrange(start, data.len() as int);
            let t2 = kw_rows(s, skip_plain_ws(s, 0) + 4, t)->Some_0.0;
            let p = kw_rows(s, skip_plain_ws(s, 0) + 4, t)->Some_0.1;
            let d = parse_value(data.subrange(start + p, data.len() as int), 0)->Obj_0->Dict_0;
            let sp = data.subrange(n, data.len() as int);
            let rows_p = kw_rows(sp, skip_plain_ws(sp, 0) + 4, (t2.0, merge_from(t2.1, d, 0)));
            let r = kw_section_spec(data, start, t, budget, visited)->Some_0.0;
            &&& rows_p is Some
            &&& forall|id: ObjectId| #[trigger] xref_find(t2.0, id) is Some
                ==> xref_find(rows_p->Some_0.0.0, id) == xref_find(t2.0, id)
            &&& forall|id: ObjectId| #[trigger] xref_find(rows_p->Some_0.0.0, id) is Some
                ==> xref_find(r.0, id) == xref_find(rows_p->Some_0.0.0, id)
            &&& kw_section_spec(data, start, t, budget, visited)
                == kw_section_spec(data, n, (t2.0, merge_from(t2.1, d, 0)), budget - 1, visited.push(n as u64))
        }),
{
    let s = data.subrange(start, data.len() as int);
    let pos = skip_plain_ws(s, 0);
    lemma_kw_section_unfold(data, start, t, budget, visited);
    let (t2, p) = kw_rows(s, pos + 4, t)->Some_0;
    let d = parse_value(data.subrange(start + p, data.len() as int), 0)->Obj_0->Dict_0;
    let t3 = (t2.0, merge_from(t2.1, d, 0));
    let off = (n as i64) as u64;
    lemma_trailer_prev_step(data, start + p, t2, budget, visited, d, n);
    lemma_section_is_kw(data, off, t3, budget - 1, visited);
    let sp = data.subrange(n, data.len() as int);
    let pp = skip_plain_ws(sp, 0);
    lemma_newer_section_wins(data, n, t3, budget - 1, visited.push(off));
    lemma_rows_keeps(sp, pp + 4, t3);
    let rp = kw_rows(sp, pp + 4, t3)->Some_0.0;
    assert forall|id: ObjectId| #[trigger] xref_find(t2.0, id) is Some implies xref_find(rp.0, id) == xref_find(t2.0, id) by {
        lemma_extends_find(t2.0, rp.0, id, 0);
    }
}

/// The `Prev` chain, read as `parse_xref_table` reads it into an empty
/// table: when the classic section S at `offset` names, by `Prev`, the
/// classic section P at `n`, every id S records gets S's entry (P never
/// overrides it), every id only P records gets P's entry, every key of S's
/// trailer keeps S's value, and every key only P's trailer has gets P's
/// value.
pub proof fn lemma_prev_chain(data: Seq<u8>, offset: u64, n: int)
    requires
        offset < data.len(),
        kw_header_ok(data, offset as int),
        section_spec(data, offset, (Seq::empty(), Seq::empty()), data.len() as int, Seq::empty()) is Some,
        0 < n < data.len(),
        n <= i64::MAX,
        n != offset,
        kw_header_ok(data, n),
        ({
            let s = data.subrange(offset as int, data.len() as int);
            let t0 = (Seq::<(ObjectId, XRefEntry)>::empty(), Seq::<(Seq<u8>, CosValue)>::empty());
            &&& kw_rows(s, skip_plain_ws(s, 0) + 4, t0) is Some
            &&& parse_value(data.subrange(offset + kw_rows(s, skip_plain_ws(s, 0) + 4, t0)->Some_0.1, data.len() as int), 0)
                matches ParseOut::Obj(CosValue::Dict(d), _) && dict_lookup(d, lit("Prev")) == Some(CosValue::Integer(n))
        }),
    ensures
        ({
            let t0 = (Seq::<(ObjectId, XRefEntry)>::empty(), Seq::<(Seq<u8>, CosValue)>::empty());
            let s = data.subrange(offset as int, data.len() as int);
            let t2 = kw_rows(s, skip_plain_ws(s, 0) + 4, t0)->Some_0.0;
            let p = kw_rows(s, skip_plain_ws(s, 0) + 4, t0)->Some_0.1;
            let d = parse_value(data.subrange(offset + p, data.len() as int), 0)->Obj_0->Dict_0;
            let sp = data.subrange(n, data.len() as int);
            let rp = kw_rows(sp, skip_plain_ws(sp, 0) + 4, (t2.0, merge_from(t2.1, d, 0)));
            let r = section_spec(data, offset, t0, data.len() as int, Seq::empty())->Some_0.0;
            &&& rp is Some
            &&& forall|id: ObjectId| #[trigger] xref_find(t2.0, id) is Some ==> xref_find(r.0, id) == xref_find(t2.0, id)
            &&& forall|id: ObjectId| xref_find(t2.0, id) is None && #[trigger] xref_find(rp->Some_0.0.0, id) is Some
                ==> xref_find(r.0, id) == xref_find(rp->Some_0.0.0, id)
            &&& forall|k: Seq<u8>| #[trigger] dict_lookup(d, k) is Some ==> dict_lookup(r.1, k) == dict_lookup(d, k)
            &&& parse_value(data.subrange(n + rp->Some_0.1, data.len() as int), 0) matches ParseOut::Obj(CosValue::Dict(dp), _)
                && forall|k: Seq<u8>| dict_lookup(d, k) is None && #[trigger] dict_lookup(dp, k) is Some
                    ==> dict_lookup(r.1, k) == dict_lookup(dp, k)
        }),
{
    let t0 = (Seq::<(ObjectId, XRefEntry)>::empty(), Seq::<(Seq<u8>, CosValue)>::empty());
    let len = data.len() as int;
    let v1 = Seq::<u64>::empty().push(offset);
    lemma_section_is_kw(data, offset, t0, len, Seq::empty());
    assert(!v1.contains(n as u64)) by {
        if v1.contains(n as u64) { assert(v1[0] == offset); }
    }
    lemma_newer_section_wins(data, offset as int, t0, len, v1);
    lemma_older_section_fills_in(data, offset as int, t0, len, v1, n);
    let s = data.subrange(offset as int, len);
    let (t2, p) = kw_rows(s, skip_plain_ws(s, 0) + 4, t0)->Some_0;
    lemma_rows_keeps(s, skip_plain_ws(s, 0) + 4, t0);
    let d = parse_value(data.subrange(offset + p, len), 0)->Obj_0->Dict_0;
    let t3 = (t2.0, merge_from(t2.1, d, 0));
    let v2 = v1.push(n as u64);
    lemma_newer_section_wins(data, n, t3, len - 1, v2);
    assert forall|k: Seq<u8>| #[trigger] dict_lookup(d, k) is Some implies dict_lookup(t0.1, k) is None by {
        crate::cos::lemma_find_key_from(t0.1, k, 0);
    }
    assert forall|k: Seq<u8>| dict_lookup(d, k) is None implies #[trigger] dict_lookup(t3.1, k) is None by {
        lemma_merge_lookup(t2.1, d, 0, k);
        crate::cos::lemma_find_key_from(t2.1, k, 0);
        crate::cos::lemma_find_key_from(d, k, 0);
    }
}

/// A trailer whose `Prev` is `n > 0` leads on to the section at `n`.
#[verifier::spinoff_prover]
#[verifier::rlimit(60)]
proof fn lemma_trailer_prev_step(data: Seq<u8>, tpos: int, t: XT, budget: int, visited: Seq<u64>,
    d: Seq<(Seq<u8>, CosValue)>, n: int)
    requires
        budget > 0,
        0 < n <= i64::MAX,
        parse_value(data.subrange(tpos, data.len() as int), 0) matches ParseOut::Obj(CosValue::Dict(e), _) && e == d,
        dict_lookup(d, lit("Prev")) == Some(CosValue::Integer(n)),
        kw_trailer_spec(data, tpos, t, budget, visited) is Some,
    ensures
        (n as i64) as u64 == n,
        kw_trailer_spec(data, tpos, t, budget, visited)
            == section_spec(data, (n as i64) as u64, (t.0, merge_from(t.1, d, 0)), budget - 1, visited),
{
    reveal(kw_trailer_spec);
    reveal(prev_spec);
}

/// The section at `offset` is a classic one when `xref` opens it.
#[verifier::spinoff_prover]
#[verifier::rlimit(60)]
proof fn lemma_section_is_kw(data: Seq<u8>, offset: u64, t: XT, budget: int, visited: Seq<u64>)
    requires
        offset < data.len(),
        budget > 0,
        kw_header_ok(data, offset as int),
        !visited.contains(offset),
    ensures
        section_spec(data, offset, t, budget, visited) == kw_section_spec(data, offset as int, t, budget, visited.push(offset)),
{
    let n = offset as int;
    let sp = data.subrange(n, data.len() as int);
    lemma_skip_shift(data, n, 0);
    let first = skip_plain_ws(data, n);
    let pp = skip_plain_ws(sp, 0);
    lemma_skip_plain_ws(sp, 0);
    assert(kw_header_ok(data, n));
    assert(pp + 4 <= sp.len());
    assert(first == n + pp);
    assert(first + 4 <= data.len());
    assert forall|k: int| 0 <= k < 4 implies #[trigger] data.subrange(first, first + 4)[k] == sp.subrange(pp, pp + 4)[k] by {
        assert(data.subrange(first, first + 4)[k] == data[first + k]);
        assert(sp.subrange(pp, pp + 4)[k] == sp[pp + k]);
        assert(sp[pp + k] == data[n + pp + k]);
    }
    assert(data.subrange(first, first + 4) =~= sp.subrange(pp, pp + 4));
    assert(data.subrange(first, first + 4) == lit("xref"));
    reveal(section_spec);
}

/// Parses the cross-reference section at `offset` (a classic table or a
/// cross-reference stream), then the sections its `Prev` chain names, and
/// merges their entries and trailers into `table`. Entries and trailer keys
/// already in `table` are kept.
pub fn parse_xref_table(data: &[u8], offset: u64, table: &mut XRefTable) -> (r: Result<(), ParseError>)
    ensures
        match section_spec(data@, offset, (old(table)@, old(table).trailer@), data@.len() as int, Seq::empty()) {
            Some((t, _)) => r is Ok && final(table)@ == t.0 && final(table).trailer@ == t.1,
            None => r is Err,
        },
        offset >= data@.len() ==> (r is Err && final(table)@ == old(table)@ && final(table).trailer@ == old(table).trailer@),
        extends(old(table)@, final(table)@),
        old(table).wf() ==> final(table).wf(),
        final(table).pdf_version == old(table).pdf_version,
{
    let mut visited: Vec<u64> = Vec::new();
    proof { assert(visited@ =~= Seq::<u64>::empty()); }
    parse_section(data, offset, table, data.len(), &mut visited)
}

/// Parses one section and, through `Prev`, at most `budget - 1` more;
/// `visited` holds the offsets of the sections read so far. A chain that
/// returns to a section already read is an error; a chain longer than the
/// file has bytes must do so, so a budget of the file's length stops only
/// chains that loop.
#[verifier::spinoff_prover]
#[verifier::rlimit(80)]
fn parse_section(data: &[u8], offset: u64, table: &mut XRefTable, budget: usize, visited: &mut Vec<u64>) -> (r: Result<(), ParseError>)
    ensures
        match section_spec(data@, offset, (old(table)@, old(table).trailer@), budget as int, old(visited)@) {
            Some((t, v)) => r is Ok && final(table)@ == t.0 && final(table).trailer@ == t.1 && final(visited)@ == v,
            None => r is Err,
        },
        offset >= data@.len() ==> r is Err,
        offset >= data@.len() || budget == 0 || old(visited)@.contains(offset) ==> (r is Err
            && final(table)@ == old(table)@ && final(table).trailer@ == old(table).trailer@ && final(visited)@ == old(visited)@),
        extends(old(table)@, final(table)@),
        old(table).wf() ==> final(table).wf(),
        final(table).pdf_version == old(table).pdf_version,
    decreases budget, 2int,
{
    proof { reveal(section_spec); }
    if offset >= data.len() as u64 {
        return Err(ParseError::new("xref offset is past end of file", data.len()));
    }
    if budget == 0 {
        return Err(ParseError::new("xref Prev chain returns to an earlier section", offset as usize));
    }
    let mut k: usize = 0;
    while k < visited.len()
        invariant k <= visited@.len(), forall|j: int| 0 <= j < k ==> visited@[j] != offset,
        decreases visited.len() - k,
    {
        if visited[k] == offset {
            proof { reveal(section_spec); assert(visited@.contains(offset)); }
            return Err(ParseError::new("xref Prev chain returns to an earlier section", offset as usize));
        }
        k += 1;
    }
    visited.push(offset);
    let start = offset as usize;
    let first = skip_ws_at(data, start);
    proof { reveal_strlit("xref"); vstd::string::is_ascii_spec_bytes("xref"); }
    if starts_with_at(data, first, "xref".as_bytes()) {
        parse_xref_keyword_table(data, start, table, budget, visited)
    } else {
        parse_xref_stream(data, start, table, budget, visited)
    }
}

/// An entry line read as object `obj_num`: the offset (or next free
/// number) in the first ten columns and the generation in columns 11 to 16,
/// each trimmed, and the type byte `n` or `f`.
pub open spec fn entry_line(line: Seq<u8>, obj_num: u32) -> Option<(ObjectId, XRefEntry)> {
    match entry_kind_index(line) {
        None => None,
        Some(k) => match (unsigned_value(trimmed(line, 0, 10), 0xffff_ffff_ffff_ffff), unsigned_value(trimmed(line, 11, 16), 0xffff)) {
            (Some(o), Some(g)) => {
                let id = ObjectId { object_number: obj_num, generation: g as u16 };
                if line[k] == 0x66 {
                    Some((id, XRefEntry::Free { next_free: (o as u64) as u32, generation: g as u16 }))
                } else if line[k] == 0x6e {
                    Some((id, XRefEntry::InUse { offset: o as u64, generation: g as u16 }))
                } else {
                    None
                }
            },
            _ => None,
        },
    }
}

/// Parses one entry line (20 or 21 bytes) into its id and entry (see
/// `entry_line`); an error at `at` when it does not read.
fn parse_entry_line(line: &[u8], obj_num: u32, at: usize) -> (r: Result<(ObjectId, XRefEntry), ParseError>)
    requires line@.len() >= 20,
    ensures
        match entry_line(line@, obj_num) {
            Some(x) => r == Ok::<(ObjectId, XRefEntry), ParseError>(x),
            None => r is Err && r->Err_0.offset == at,
        },
{
    let kind_idx = match find_xref_entry_type(line) {
        Some(k) => k,
        None => return Err(ParseError::new("cannot locate 'n'/'f' type byte in xref entry", at)),
    };
    proof {
        lemma_kind_after_space(line@, 1);
        assert(entry_kind_index(line@) is Some);
        let i = entry_kind_index(line@)->Some_0;
        assert(0 <= i < line@.len());
        assert(line@.len() == line.len());
        assert(kind_idx == i as usize);
        assert(entry_kind_index(line@) == Some(kind_idx as int));
    }
    let kind = line[kind_idx];
    let (oa, ob) = trim_range(line, 0, 10);
    let (ga, gb) = trim_range(line, 11, 16);
    let byte_offset = match parse_unsigned(&line[oa..ob], 0xffff_ffff_ffff_ffff) {
        Some(v) => v,
        None => return Err(ParseError::new("invalid xref entry offset", at)),
    };
    let gen_value = match parse_unsigned(&line[ga..gb], 0xffff) {
        Some(v) => v,
        None => return Err(ParseError::new("invalid xref entry generation", at)),
    };
    let generation = gen_value as u16;
    proof {
        assert(line@.subrange(oa as int, ob as int) == trimmed(line@, 0, 10));
        assert(line@.subrange(ga as int, gb as int) == trimmed(line@, 11, 16));
        let o = unsigned_value(trimmed(line@, 0, 10), 0xffff_ffff_ffff_ffff);
        let g = unsigned_value(trimmed(line@, 11, 16), 0xffff);
        assert(o == Some(byte_offset as int));
        assert(g == Some(gen_value as int));
        assert((byte_offset as int) as u64 == byte_offset);
        assert((gen_value as int) as u16 == generation);
    }
    let id = ObjectId::new(obj_num, generation);
    if kind == 0x66 {
        Ok((id, XRefEntry::Free { next_free: byte_offset as u32, generation }))
    } else if kind == 0x6e {
        Ok((id, XRefEntry::InUse { offset: byte_offset, generation }))
    } else {
        Err(ParseError::new("unknown xref entry type", at))
    }
}

/// Parses the classic `xref ... trailer ...` form at `start`.
#[verifier::spinoff_prover]
#[verifier::rlimit(80)]
fn parse_xref_keyword_table(data: &[u8], start: usize, table: &mut XRefTable, budget: usize, visited: &mut Vec<u64>)
    -> (r: Result<(), ParseError>)
    requires
        start < data@.len(),
        budget >= 1,
    ensures
        extends(old(table)@, final(table)@),
        old(table).wf() ==> final(table).wf(),
        final(table).pdf_version == old(table).pdf_version,
        match kw_section_spec(data@, start as int, (old(table)@, old(table).trailer@), budget as int, old(visited)@) {
            Some((t, v)) => r is Ok && final(table)@ == t.0 && final(table).trailer@ == t.1 && final(visited)@ == v,
            None => r is Err,
        },
        !kw_header_ok(data@, start as int) ==> (r is Err && final(table)@ == old(table)@ && final(table).trailer@ == old(table).trailer@
            && final(visited)@ == old(visited)@),
    decreases budget, 1int,
{
    let slice = &data[start..data.len()];
    let n = slice.len();
    proof {
        reveal_strlit("xref");
        vstd::string::is_ascii_spec_bytes("xref");
        reveal_strlit("trailer");
        vstd::string::is_ascii_spec_bytes("trailer");
    }
    let ghost sv = slice@;
    let ghost t0: XT = (table@, table.trailer@);
    let ghost goal = kw_section_spec(data@, start as int, t0, budget as int, visited@);
    proof { assert(sv == data@.subrange(start as int, data@.len() as int)); }
    let mut pos = skip_ws_at(slice, 0);
    if !starts_with_at(slice, pos, "xref".as_bytes()) {
        return Err(ParseError::new("expected 'xref' keyword", start + pos));
    }
    proof {
        assert(skip_plain_ws(sv, 0) == pos as int);
        assert(sv.subrange(pos as int, pos + 4) == lit("xref"));
    }
    pos += 4;
    let ghost rows = kw_rows(sv, pos as int, t0);
    proof {
        let s2 = data@.subrange(start as int, data@.len() as int);
        assert(s2 == sv);
        assert(skip_plain_ws(s2, 0) + 4 == pos);
        let q = skip_plain_ws(s2, 0);
        assert(q + 4 <= s2.len());
        assert(s2.subrange(q, q + 4) == lit("xref"));
        lemma_kw_section_unfold(data@, start as int, t0, budget as int, visited@);
        assert(goal == match rows { None => None, Some((t2, p)) => kw_trailer_spec(data@, start + p, t2, budget as int, visited@) });
    }
    proof { assert(kw_header_ok(data@, start as int)); }
    let mut done = false;
    while !done
        invariant
            kw_header_ok(data@, start as int),
            pos <= n == slice@.len(),
            sv == slice@,
            start + n == data.len(),
            lit("trailer").len() == 7,
            extends(old(table)@, table@),
            old(table).wf() ==> table.wf(),
            table.pdf_version == old(table).pdf_version,
            visited@ == old(visited)@,
            goal == match rows { None => None, Some((t2, p)) => kw_trailer_spec(data@, start + p, t2, budget as int, visited@) },
            goal == kw_section_spec(data@, start as int, (old(table)@, old(table).trailer@), budget as int, old(visited)@),
            !done ==> kw_rows(sv, pos as int, (table@, table.trailer@)) == rows,
            done ==> rows == Some(((table@, table.trailer@), pos as int)),
        decreases n - pos, if done { 0int } else { 1int },
    {
        proof { reveal(kw_rows); }
        let ghost posrow = pos as int;
        pos = skip_ws_at(slice, pos);
        if starts_with_at(slice, pos, "trailer".as_bytes()) {
            pos += 7;
            done = true;
        } else {
            if pos >= n {
                return Err(ParseError::new("unexpected EOF in xref table, missing 'trailer'", start + pos));
            }
            let p0 = pos;
            let (first_obj, c1) = match read_ascii_u32(&slice[pos..n]) {
                Some(x) => x,
                None => return Err(ParseError::new("expected xref subsection first obj", start + pos)),
            };
            proof { lemma_digits_end(slice@.subrange(pos as int, n as int), 0); }
            pos += c1;
            pos = skip_ws_at(slice, pos);
            let (count, c2) = match read_ascii_u32(&slice[pos..n]) {
                Some(x) => x,
                None => return Err(ParseError::new("expected xref subsection count", start + pos)),
            };
            proof { lemma_digits_end(slice@.subrange(pos as int, n as int), 0); }
            pos += c2;
            pos = skip_eol(slice, pos);
            let mut i: u32 = 0;
            proof {
                assert(rows == match kw_entries(sv, pos as int, first_obj, count, 0, (table@, table.trailer@)) {
                    None => None,
                    Some((t2, p4)) => if posrow < p4 <= n { kw_rows(sv, p4, t2) } else { None },
                });
            }
            while i < count
                invariant
                    kw_header_ok(data@, start as int),
                    p0 < pos <= n == slice@.len(),
                    sv == slice@,
                    posrow <= p0,
                    start + n == data.len(),
                    i <= count,
                    extends(old(table)@, table@),
                    old(table).wf() ==> table.wf(),
                    table.pdf_version == old(table).pdf_version,
                    visited@ == old(visited)@,
                    goal == match rows { None => None, Some((t2, p)) => kw_trailer_spec(data@, start + p, t2, budget as int, visited@) },
                    goal == kw_section_spec(data@, start as int, (old(table)@, old(table).trailer@), budget as int, old(visited)@),
                    rows == match kw_entries(sv, pos as int, first_obj, count, i as int, (table@, table.trailer@)) {
                        None => None,
                        Some((t2, p4)) => if posrow < p4 <= n { kw_rows(sv, p4, t2) } else { None },
                    },
                decreases count - i,
            {
                proof { reveal(kw_entries); }
                if pos > n || 20 > n - pos {
                    return Err(ParseError::new("xref entry truncated", start + pos));
                }
                let entry_len: usize = if 21 <= n - pos && (slice[pos + 20] == 0x0d || slice[pos + 20] == 0x0a) {
                    21
                } else {
                    20
                };
                let obj_num = match first_obj.checked_add(i) {
                    Some(x) => x,
                    None => return Err(ParseError::new("xref object number out of range", start + pos)),
                };
                let (id, entry) = match parse_entry_line(&slice[pos..pos + entry_len], obj_num, start + pos) {
                    Ok(x) => x,
                    Err(e) => return Err(e),
                };
                let ghost before = table@;
                proof { assert(sv.subrange(pos as int, pos + entry_len) == slice@.subrange(pos as int, pos + entry_len)); }
                table.insert_if_absent(id, entry);
                pos += entry_len;
                i += 1;
            }
            proof { reveal(kw_entries); }
        }
    }
    let tpos = start + pos;
    proof { reveal(kw_trailer_spec); }
    let mut parser = Parser::new(&data[tpos..data.len()]);
    let trailer_obj = match parser.parse_object() {
        Ok(Some(o)) => o,
        Ok(None) => return Err(ParseError::new("expected trailer dictionary", tpos)),
        Err(e) => return Err(e),
    };
    let trailer_dict = match trailer_obj {
        CosObject::Dictionary(d) => d,
        _ => return Err(ParseError::new("trailer must be a dictionary", tpos)),
    };
    follow_prev_and_merge(data, &trailer_dict, table, budget, visited)
}

/// Merges the section's trailer (so the newest update wins per key), then
/// follows its `Prev` entry.
#[verifier::spinoff_prover]
#[verifier::rlimit(40)]
fn follow_prev_and_merge(data: &[u8], dict: &CosDictionary, table: &mut XRefTable, budget: usize, visited: &mut Vec<u64>)
    -> (r: Result<(), ParseError>)
    requires budget >= 1,
    ensures
        extends(old(table)@, final(table)@),
        old(table).wf() ==> final(table).wf(),
        final(table).pdf_version == old(table).pdf_version,
        match prev_spec(data@, dict@, (old(table)@, old(table).trailer@), budget as int, old(visited)@) {
            Some((t, v)) => r is Ok && final(table)@ == t.0 && final(table).trailer@ == t.1 && final(visited)@ == v,
            None => r is Err,
        },
    decreases budget, 0int,
{
    proof { reveal(prev_spec); }
    table.merge_trailer(dict);
    if let Some(prev_offset) = dict.get_int(&CosName::prev()) {
        if prev_offset > 0 {
            match parse_section(data, prev_offset as u64, table, budget - 1, visited) {
                Ok(()) => {}
                Err(e) => return Err(e),
            }
        }
    }
    Ok(())
}

/// A stream dictionary's `/Length`, as a byte count (0 when absent).
fn declared_length(dict: &CosDictionary) -> (r: usize)
    ensures
        r == (match dict_lookup(dict@, lit("Length")) {
            Some(CosValue::Integer(n)) => n as usize,
            _ => 0usize,
        }),
{
    match dict.get(&CosName::named("Length")) {
        Some(CosObject::Integer(n)) => *n as usize,
        _ => 0,
    }
}

/// `s` holds the `stream` keyword at `q`.
pub open spec fn stream_kw_at(s: Seq<u8>, q: int) -> bool {
    0 <= q && q + 6 <= s.len() && s.subrange(q, q + 6) == lit("stream")
}

/// The position of the first `stream` keyword in `s`.
pub open spec fn first_stream_kw(s: Seq<u8>) -> Option<int> {
    if exists|q: int| #[trigger] stream_kw_at(s, q) {
        Some(choose|q: int| stream_kw_at(s, q) && forall|j: int| 0 <= j < q ==> !#[trigger] stream_kw_at(s, j))
    } else {
        None
    }
}

/// The `length` bytes of a stream body starting at `start`, after one
/// `\r`, `\n` or `\r\n`; `None` when the data ends first.
pub open spec fn stream_body(data: Seq<u8>, start: int, length: int) -> Option<Seq<u8>> {
    let p1 = if start < data.len() && data[start] == 0x0d { start + 1 } else { start };
    let p2 = if p1 < data.len() && data[p1] == 0x0a { p1 + 1 } else { p1 };
    if p2 + length > data.len() { None } else { Some(data.subrange(p2, p2 + length)) }
}

/// Position of the first `stream` keyword in `s`.
pub fn find_stream_keyword(s: &[u8]) -> (r: Option<usize>)
    ensures
        match r {
            Some(p) => stream_kw_at(s@, p as int) && forall|q: int| 0 <= q < p ==> !#[trigger] stream_kw_at(s@, q),
            None => forall|q: int| !#[trigger] stream_kw_at(s@, q),
        },
        match r {
            Some(p) => first_stream_kw(s@) == Some(p as int),
            None => first_stream_kw(s@) is None,
        },
{
    let kw = "stream".as_bytes();
    proof { reveal_strlit("stream"); vstd::string::is_ascii_spec_bytes("stream"); }
    let mut p: usize = 0;
    while p <= s.len() && 6 <= s.len() - p
        invariant
            kw@ == lit("stream"),
            kw@.len() == 6,
            forall|q: int| 0 <= q < p ==> !#[trigger] stream_kw_at(s@, q),
        decreases s.len() - p,
    {
        if starts_with_at(s, p, kw) {
            proof {
                assert(stream_kw_at(s@, p as int));
                let q = choose|q: int| stream_kw_at(s@, q) && forall|j: int| 0 <= j < q ==> !#[trigger] stream_kw_at(s@, j);
                assert(stream_kw_at(s@, q) && forall|j: int| 0 <= j < q ==> !#[trigger] stream_kw_at(s@, j));
                if q < p {
                } else if p < q {
                    assert(!stream_kw_at(s@, p as int));
                }
            }
            return Some(p);
        }
        p += 1;
    }
    proof {
        assert forall|q: int| !#[trigger] stream_kw_at(s@, q) by {
            if q >= p {
                assert(q + 6 > s@.len());
            }
        }
    }
    None
}

/// The stream body that follows the first `stream` keyword of `slice`:
/// `length` bytes after one EOL (a `\r` and the byte after it, or a
/// `\n`), cut at the end of `slice`.
pub open spec fn xref_backfill(slice: Seq<u8>, length: int) -> Seq<u8> {
    if length == 0 {
        Seq::empty()
    } else {
        match first_stream_kw(slice) {
            None => Seq::empty(),
            Some(kw) => {
                let ds = kw + 6;
                if ds < slice.len() && slice[ds] == 0x0d && ds + 1 >= slice.len() {
                    Seq::empty()
                } else {
                    let data_start = if ds < slice.len() && slice[ds] == 0x0d {
                        ds + 2
                    } else if ds < slice.len() && slice[ds] == 0x0a {
                        ds + 1
                    } else {
                        ds
                    };
                    let end = if length <= slice.len() && data_start <= slice.len() - length {
                        data_start + length
                    } else {
                        slice.len() as int
                    };
                    if data_start <= end { slice.subrange(data_start, end) } else { Seq::empty() }
                }
            },
        }
    }
}

/// Reads the stream body that follows the first `stream` keyword of `slice`
/// when the parser left the data empty (see `xref_backfill`).
fn backfill_xref_stream_data(slice: &[u8], length: usize) -> (r: Vec<u8>)
    ensures r@ == xref_backfill(slice@, length as int),
{
    if length == 0 {
        return Vec::new();
    }
    match find_stream_keyword(slice) {
        None => Vec::new(),
        Some(kw_pos) => {
            assert(kw_pos + 6 <= slice.len());
            let ds = kw_pos + 6;
            let data_start = if ds < slice.len() && slice[ds] == 0x0d {
                if ds + 1 < slice.len() { ds + 2 } else { return Vec::new(); }
            } else if ds < slice.len() && slice[ds] == 0x0a {
                ds + 1
            } else {
                ds
            };
            let end = if length <= slice.len() && data_start <= slice.len() - length {
                data_start + length
            } else {
                slice.len()
            };
            if data_start <= end {
                clone_bytes(&slice[data_start..end])
            } else {
                Vec::new()
            }
        }
    }
}

/// An integer array item as `usize` (0 when not an integer).
fn int_item_usize(o: &CosObject) -> (r: usize)
    ensures
        r == (match o@ {
            CosValue::Integer(n) => n as usize,
            _ => 0usize,
        }),
{
    match o {
        CosObject::Integer(n) => *n as usize,
        _ => 0,
    }
}

/// An integer array item as `u32` (0 when not an integer).
fn int_item_u32(o: &CosObject) -> (r: u32)
    ensures
        r == (match o@ {
            CosValue::Integer(n) => n as u32,
            _ => 0u32,
        }),
{
    match o {
        CosObject::Integer(n) => *n as u32,
        _ => 0,
    }
}

/// Reads the entries of a cross-reference stream's decoded data `decoded`,
/// subsection by subsection, into `table`.
fn read_xs_entries(decoded: &[u8], w0: usize, w1: usize, w2: usize, entry_size: usize,
    index_pairs: &Vec<(u32, u32)>, table: &mut XRefTable, start: usize) -> (r: Result<(), ParseError>)
    requires
        entry_size == w0 + w1 + w2,
    ensures
        extends(old(table)@, final(table)@),
        old(table).wf() ==> final(table).wf(),
        final(table).pdf_version == old(table).pdf_version,
        match xs_pairs(decoded@, (w0, w1, w2), index_pairs@, 0, 0, (old(table)@, old(table).trailer@)) {
            Some(t2) => r is Ok && final(table)@ == t2.0 && final(table).trailer@ == t2.1,
            None => r is Err,
        },
{
    let ghost w = (w0, w1, w2);
    let ghost pairs = index_pairs@;
    let ghost xp = xs_pairs(decoded@, w, pairs, 0, 0, (table@, table.trailer@));
    let mut byte_pos: usize = 0;
    let mut p: usize = 0;
    while p < index_pairs.len()
        invariant
            extends(old(table)@, table@),
            old(table).wf() ==> table.wf(),
            table.pdf_version == old(table).pdf_version,
            byte_pos <= decoded@.len(),
            entry_size == w0 + w1 + w2,
            w == (w0, w1, w2),
            xp == xs_pairs(decoded@, (w0, w1, w2), pairs, 0, 0, (old(table)@, old(table).trailer@)),
            index_pairs@ == pairs,
            xp == xs_pairs(decoded@, w, pairs, p as int, byte_pos as int, (table@, table.trailer@)),
        decreases index_pairs.len() - p,
    {
        proof { reveal(xs_pairs); }
        let (first_obj, count) = index_pairs[p];
        let mut i: u32 = 0;
        while i < count
            invariant
                extends(old(table)@, table@),
                old(table).wf() ==> table.wf(),
                table.pdf_version == old(table).pdf_version,
                byte_pos <= decoded@.len(),
                entry_size == w0 + w1 + w2,
                i <= count,
                w == (w0, w1, w2),
                xp == xs_pairs(decoded@, (w0, w1, w2), pairs, 0, 0, (old(table)@, old(table).trailer@)),
                index_pairs@ == pairs,
                p < pairs.len(),
                xp == match xs_pair(decoded@, w, first_obj, count, i as int, byte_pos as int, (table@, table.trailer@)) {
                    None => None,
                    Some((t2, bp2)) => xs_pairs(decoded@, w, pairs, p + 1, bp2, t2),
                },
            decreases count - i,
        {
            proof { reveal(xs_pair); }
            if entry_size > decoded.len() - byte_pos {
                return Err(ParseError::new("xref stream data truncated", start));
            }
            let entry_type: u64 = if w0 == 0 { 1 } else { read_be_uint(decoded, byte_pos, w0) };
            let field2 = read_be_uint(decoded, byte_pos + w0, w1);
            let field3 = read_be_uint(decoded, byte_pos + w0 + w1, w2);
            byte_pos += entry_size;
            let obj_num = match first_obj.checked_add(i) {
                Some(x) => x,
                None => return Err(ParseError::new("xref object number out of range", start)),
            };
            let kind = entry_type as u8;
            let generation: u16 = if kind == 2 { 0 } else { field3 as u16 };
            let id = ObjectId::new(obj_num, generation);
            let entry = if kind == 0 {
                XRefEntry::Free { next_free: field2 as u32, generation: field3 as u16 }
            } else if kind == 1 {
                XRefEntry::InUse { offset: field2, generation: field3 as u16 }
            } else if kind == 2 {
                XRefEntry::Compressed { stream_object_number: field2 as u32, index_in_stream: field3 as u32 }
            } else {
                return Err(ParseError::new("unknown xref stream entry type", start));
            };
            table.insert_if_absent(id, entry);
            i += 1;
        }
        proof { reveal(xs_pair); }
        p += 1;
    }
    proof { reveal(xs_pairs); }
    Ok(())
}

/// Reads the field widths and `/Index` subsections of a cross-reference
/// stream dictionary; errors name the offset `at`.
fn read_xs_layout(dict: &CosDictionary, at: usize) -> (r: Result<((usize, usize, usize), Vec<(u32, u32)>), ParseError>)
    ensures
        match xs_layout(dict@) {
            Some((w, pairs)) => r is Ok && r->Ok_0.0 == w && r->Ok_0.1@ == pairs,
            None => r is Err,
        },
{
    let is_xref = match dict.get_name(&CosName::type_key()) {
        Some(n) => eq_str(n.as_bytes(), "XRef"),
        None => false,
    };
    if !is_xref {
        return Err(ParseError::new("xref stream /Type is not /XRef", at));
    }
    let w_array = match dict.get_array(&CosName::named("W")) {
        Some(a) => a,
        None => return Err(ParseError::new("xref stream missing /W array", at)),
    };
    proof { crate::cos::lemma_view_objs(w_array@); }
    if w_array.len() != 3 {
        return Err(ParseError::new("xref stream /W must have 3 elements", at));
    }
    let w0 = int_item_usize(&w_array[0]);
    let w1 = int_item_usize(&w_array[1]);
    let w2 = int_item_usize(&w_array[2]);
    let entry_size = match w0.checked_add(w1) {
        Some(x) => match x.checked_add(w2) {
            Some(y) => y,
            None => return Err(ParseError::new("xref stream /W is out of range", at)),
        },
        None => return Err(ParseError::new("xref stream /W is out of range", at)),
    };
    if entry_size == 0 {
        return Err(ParseError::new("xref stream /W sums to zero", at));
    }
    let size: u32 = match dict.get_int(&CosName::named("Size")) {
        Some(n) => n as u32,
        None => 0,
    };
    let mut index_pairs: Vec<(u32, u32)> = Vec::new();
    match dict.get_array(&CosName::named("Index")) {
        Some(idx) => {
            if idx.len() % 2 != 0 {
                return Err(ParseError::new("xref stream /Index length must be even", at));
            }
            let ghost a = view_objs(idx@);
            proof { crate::cos::lemma_view_objs(idx@); }
            let mut k: usize = 0;
            while k < idx.len() && 1 < idx.len() - k
                invariant
                    k <= idx@.len(), k % 2 == 0, idx@.len() % 2 == 0,
                    a == view_objs(idx@), a.len() == idx@.len(),
                    forall|q: int| 0 <= q < idx@.len() ==> a[q] == (#[trigger] idx@[q])@,
                    index_pairs@ == Seq::new((k / 2) as nat, |j: int| (int_u32v(a[2 * j]), int_u32v(a[2 * j + 1]))),
                decreases idx.len() - k,
            {
                index_pairs.push((int_item_u32(&idx[k]), int_item_u32(&idx[k + 1])));
                proof {
                    assert(index_pairs@ =~= Seq::new(((k + 2) / 2) as nat, |j: int| (int_u32v(a[2 * j]), int_u32v(a[2 * j + 1]))));
                }
                k += 2;
            }
        }
        None => {
            index_pairs.push((0, size));
            proof { assert(index_pairs@ =~= seq![(0u32, size)]); }
        }
    }
    proof {
        assert(xs_index(dict@) == Some(index_pairs@));
        assert(dict_lookup(dict@, lit("Type")) == Some(CosValue::Name(lit("XRef"))));
        let a = view_objs(w_array@);
        assert(dict_lookup(dict@, lit("W")) == Some(CosValue::Array(a)));
        assert(a.len() == 3);
        assert(int_usize(a[0]) == w0 && int_usize(a[1]) == w1 && int_usize(a[2]) == w2);
    }
    Ok(((w0, w1, w2), index_pairs))
}

/// Parses a cross-reference stream object at `start`.
#[verifier::spinoff_prover]
#[verifier::rlimit(80)]
fn parse_xref_stream(data: &[u8], start: usize, table: &mut XRefTable, budget: usize, visited: &mut Vec<u64>)
    -> (r: Result<(), ParseError>)
    requires
        start < data@.len(),
        budget >= 1,
    ensures
        extends(old(table)@, final(table)@),
        old(table).wf() ==> final(table).wf(),
        final(table).pdf_version == old(table).pdf_version,
        match xs_section_spec(data@, start as int, (old(table)@, old(table).trailer@), budget as int, old(visited)@) {
            Some((t, v)) => r is Ok && final(table)@ == t.0 && final(table).trailer@ == t.1 && final(visited)@ == v,
            None => r is Err,
        },
        !(parse_indirect(data@.subrange(start as int, data@.len() as int), 0) matches IndirectOut::Def(_, _, CosValue::Stream(d, _), _)
            && xs_layout(d) is Some) ==> (r is Err && final(table)@ == old(table)@
            && final(table).trailer@ == old(table).trailer@ && final(visited)@ == old(visited)@),
    decreases budget, 1int,
{
    let slice = &data[start..data.len()];
    let ghost sl = slice@;
    let ghost t0: XT = (table@, table.trailer@);
    let ghost goal = xs_section_spec(data@, start as int, t0, budget as int, visited@);
    proof { assert(sl == data@.subrange(start as int, data@.len() as int)); }
    let mut parser = Parser::new(slice);
    let obj = match parser.parse_indirect_object() {
        Ok(Some((_id, o))) => o,
        Ok(None) => return Err(ParseError::new("expected indirect xref stream object", start)),
        Err(e) => return Err(e),
    };
    let mut stream = match obj {
        CosObject::Stream(s) => s,
        _ => return Err(ParseError::new("xref stream must be a stream object", start)),
    };
    let ghost d0 = stream.dictionary@;
    let ghost sd0 = stream.data@;
    proof {
        lemma_xs_section_unfold(data@, start as int, t0, budget as int, visited@);
        assert(parse_indirect(sl, 0) matches IndirectOut::Def(_, _, CosValue::Stream(d, sd), _) && d == d0 && sd == sd0);
    }
    proof { assert(goal == match xs_table(d0, sd0, sl, t0) { None => None, Some(t2) => prev_spec(data@, d0, t2, budget as int, visited@) }); }
    if stream.data.len() == 0 {
        let length = declared_length(&stream.dictionary);
        stream.data = backfill_xref_stream_data(slice, length);
    }
    let ghost data1 = stream.data@;
    proof { reveal(xs_table); }
    let dict = &stream.dictionary;
    let layout = read_xs_layout(dict, start);
    let ((w0, w1, w2), index_pairs) = match layout {
        Ok(x) => x,
        Err(e) => return Err(e),
    };
    let entry_size = w0 + w1 + w2;
    let decoded: Vec<u8> = match crate::io::decode_stream(stream.data.as_slice(), dict.get(&CosName::named("Filter"))) {
        Ok(v) => v,
        Err(_) => clone_bytes(stream.data.as_slice()),
    };
    let ghost w = (w0, w1, w2);
    let ghost pairs = index_pairs@;
    let ghost xp = xs_pairs(decoded@, w, pairs, 0, 0, t0);
    proof {
        assert(xs_index(d0) == Some(pairs));
        assert(goal == match xp { None => None, Some(t2) => prev_spec(data@, d0, t2, budget as int, visited@) });
    }
    let entries = read_xs_entries(decoded.as_slice(), w0, w1, w2, entry_size, &index_pairs, table, start);
    if let Err(e) = entries {
        return Err(e);
    }
    follow_prev_and_merge(data, dict, table, budget, visited)
}

/// The table and trailer `load_xref` reads from a file: the section that
/// `startxref` names and its `Prev` chain; `None` when that fails.
pub open spec fn xref_load_spec(data: Seq<u8>) -> Option<XT> {
    match startxref_spec(data, 1024) {
        None => None,
        Some(off) => match section_spec(data, off, (Seq::empty(), Seq::empty()), data.len() as int, Seq::empty()) {
            Some((t, _)) => Some(t),
            None => None,
        },
    }
}

/// Loads the complete cross-reference table of a file: finds `startxref`
/// in the last 1024 bytes, then parses that section and its `Prev` chain.
pub fn load_xref(data: &[u8]) -> (r: Result<XRefTable, ParseError>)
    ensures
        match startxref_spec(data@, 1024) {
            None => r is Err,
            Some(off) => match section_spec(data@, off, (Seq::empty(), Seq::empty()), data@.len() as int, Seq::empty()) {
                Some((t, _)) => r is Ok && r->Ok_0@ == t.0 && r->Ok_0.trailer@ == t.1,
                None => r is Err,
            },
        },
        startxref_spec(data@, 1024) is None ==> r is Err,
        match xref_load_spec(data@) {
            Some(t) => r is Ok && r->Ok_0@ == t.0 && r->Ok_0.trailer@ == t.1,
            None => r is Err,
        },
        r is Ok ==> r->Ok_0.wf() && r->Ok_0.pdf_version is None,
{
    let off = find_startxref(data, 1024)?;
    let mut table = XRefTable::new();
    parse_xref_table(data, off, &mut table)?;
    Ok(table)
}

} // verus!

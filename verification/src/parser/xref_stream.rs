//! Cross-reference streams (PDF 1.5+, PDF 32000 §7.5.8): binary entries
//! whose field widths the `/W` array gives.

use vstd::prelude::*;
use crate::bytes::lit;
use crate::cos::{CosDictionary, CosName, CosObject, CosStream, CosValue, ObjectId, dict_insert, dict_lookup,
    view_objs, lemma_view_objs};
use super::xref::be_value;

verus! {

broadcast use lemma_view_objs;

/// One binary cross-reference entry.
#[derive(Debug, Clone, Copy, PartialEq, Eq)]
pub enum XRefEntry {
    /// Type 0: a free object (next free object number, generation).
    Free { next: u32, generation: u16 },
    /// Type 1: an object at a byte offset (offset, generation).
    InUse { offset: u64, generation: u16 },
    /// Type 2: an object in an object stream (stream number, index).
    Compressed { stream: u32, index: u32 },
}

/// The type byte of an entry.
pub open spec fn entry_type(e: XRefEntry) -> u8 {
    match e {
        XRefEntry::Free { .. } => 0,
        XRefEntry::InUse { .. } => 1,
        XRefEntry::Compressed { .. } => 2,
    }
}

/// The second field of an entry.
pub open spec fn entry_field1(e: XRefEntry) -> u64 {
    match e {
        XRefEntry::Free { next, .. } => next as u64,
        XRefEntry::InUse { offset, .. } => offset,
        XRefEntry::Compressed { stream, .. } => stream as u64,
    }
}

/// The third field of an entry.
pub open spec fn entry_field2(e: XRefEntry) -> u32 {
    match e {
        XRefEntry::Free { generation, .. } => generation as u32,
        XRefEntry::InUse { generation, .. } => generation as u32,
        XRefEntry::Compressed { index, .. } => index,
    }
}

/// The `w` big-endian bytes of `v` (`w <= 8`).
pub open spec fn be_bytes(v: u64, w: int) -> Seq<u8> {
    Seq::new(w as nat, |k: int| ((v >> ((w - 1 - k) * 8) as u64) & 0xff) as u8)
}

/// The encoding of an entry: the type byte `w[0]` times, then the two
/// fields big-endian in `w[1]` and `w[2]` bytes.
pub open spec fn entry_bytes(e: XRefEntry, w: Seq<u16>) -> Seq<u8> {
    Seq::new(w[0] as nat, |k: int| entry_type(e)) + be_bytes(entry_field1(e), w[1] as int)
        + be_bytes(entry_field2(e) as u64, w[2] as int)
}

/// Decoding an entry from the front of `data`: the type is the last byte of
/// the first field.
pub open spec fn entry_from_bytes(data: Seq<u8>, w: Seq<u16>) -> Option<XRefEntry> {
    let a = w[0] as int;
    let b = a + w[1];
    let c = b + w[2];
    if a > data.len() || b > data.len() || c > data.len() {
        None
    } else {
        let t = data[a - 1];
        let f1 = be_value(data.subrange(a, b)) as u64;
        let f2 = (be_value(data.subrange(b, c)) % 0x1_0000_0000) as u32;
        if t == 0 {
            Some(XRefEntry::Free { next: f1 as u32, generation: f2 as u16 })
        } else if t == 1 {
            Some(XRefEntry::InUse { offset: f1, generation: f2 as u16 })
        } else if t == 2 {
            Some(XRefEntry::Compressed { stream: f1 as u32, index: f2 })
        } else {
            None
        }
    }
}

fn push_be(buf: &mut Vec<u8>, v: u64, w: u16)
    requires w <= 8,
    ensures final(buf)@ == old(buf)@ + be_bytes(v, w as int),
{
    let ghost start = buf@;
    let mut i: u16 = w;
    while i > 0
        invariant
            i <= w <= 8,
            buf@ == start + be_bytes(v, w as int).subrange(0, (w - i) as int),
        decreases i,
    {
        i -= 1;
        let byte = ((v >> (i * 8) as u64) & 0xff) as u8;
        buf.push(byte);
        proof {
            assert(be_bytes(v, w as int).subrange(0, (w - i) as int)
                =~= be_bytes(v, w as int).subrange(0, (w - i - 1) as int).push(byte));
        }
    }
    proof { assert(be_bytes(v, w as int).subrange(0, w as int) =~= be_bytes(v, w as int)); }
}

impl XRefEntry {
    /// Encodes the entry with field widths `widths`.
    pub fn to_bytes(&self, widths: &[u16; 3]) -> (r: Vec<u8>)
        requires widths@[1] <= 8, widths@[2] <= 4,
        ensures r@ == entry_bytes(*self, widths@),
    {
        let mut buf: Vec<u8> = Vec::new();
        let type_byte: u8 = match self {
            XRefEntry::Free { .. } => 0,
            XRefEntry::InUse { .. } => 1,
            XRefEntry::Compressed { .. } => 2,
        };
        let mut k: u16 = 0;
        while k < widths[0]
            invariant k <= widths@[0], buf@ == Seq::new(k as nat, |j: int| type_byte),
            decreases widths@[0] - k,
        {
            buf.push(type_byte);
            proof { assert(buf@ =~= Seq::new((k + 1) as nat, |j: int| type_byte)); }
            k += 1;
        }
        let field1: u64 = match self {
            XRefEntry::Free { next, .. } => *next as u64,
            XRefEntry::InUse { offset, .. } => *offset,
            XRefEntry::Compressed { stream, .. } => *stream as u64,
        };
        push_be(&mut buf, field1, widths[1]);
        let field2: u32 = match self {
            XRefEntry::Free { generation, .. } => *generation as u32,
            XRefEntry::InUse { generation, .. } => *generation as u32,
            XRefEntry::Compressed { index, .. } => *index,
        };
        push_be(&mut buf, field2 as u64, widths[2]);
        buf
    }

    /// Decodes an entry from the front of `data`; `None` when `data` is too
    /// short or the type is not 0, 1 or 2.
    pub fn from_bytes(data: &[u8], widths: &[u16; 3]) -> (r: Option<Self>)
        requires widths@[0] >= 1,
        ensures r == entry_from_bytes(data@, widths@),
    {
        let a = widths[0] as usize;
        let b = a + widths[1] as usize;
        let c = b + widths[2] as usize;
        if a > data.len() || b > data.len() || c > data.len() {
            return None;
        }
        let t = data[a - 1];
        let f1 = super::xref::read_be_uint(data, a, b - a);
        let f2_64 = super::xref::read_be_uint(data, b, c - b);
        let f2 = (f2_64 % 0x1_0000_0000) as u32;
        if t == 0 {
            Some(XRefEntry::Free { next: f1 as u32, generation: f2 as u16 })
        } else if t == 1 {
            Some(XRefEntry::InUse { offset: f1, generation: f2 as u16 })
        } else if t == 2 {
            Some(XRefEntry::Compressed { stream: f1 as u32, index: f2 })
        } else {
            None
        }
    }
}

/// A subsection of a cross-reference stream: consecutive object numbers.
#[derive(Debug, Clone)]
pub struct XRefSubsection {
    /// First object number.
    pub start: u32,
    /// Number of entries.
    pub count: u32,
    /// The entries in order.
    pub entries: Vec<XRefEntry>,
}

/// The concatenated encodings of `es` from index `i`.
pub open spec fn entries_bytes(es: Seq<XRefEntry>, w: Seq<u16>) -> Seq<u8>
    decreases es.len(),
{
    if es.len() == 0 { Seq::empty() } else { entries_bytes(es.drop_last(), w) + entry_bytes(es.last(), w) }
}

impl XRefSubsection {
    pub fn new(start: u32) -> (r: Self)
        ensures r.start == start, r.count == 0, r.entries@ == Seq::<XRefEntry>::empty(),
    {
        XRefSubsection { start, count: 0, entries: Vec::new() }
    }

    /// Appends an entry; `count` follows the number of entries.
    pub fn add_entry(&mut self, entry: XRefEntry)
        ensures
            final(self).entries@ == old(self).entries@.push(entry),
            final(self).count == (old(self).entries@.len() + 1) as u32,
            final(self).start == old(self).start,
    {
        self.entries.push(entry);
        self.count = self.entries.len() as u32;
    }

    /// The entries' encodings, in order.
    pub fn to_bytes(&self, widths: &[u16; 3]) -> (r: Vec<u8>)
        requires widths@[1] <= 8, widths@[2] <= 4,
        ensures r@ == entries_bytes(self.entries@, widths@),
    {
        let mut buf: Vec<u8> = Vec::new();
        let mut i: usize = 0;
        while i < self.entries.len()
            invariant
                i <= self.entries@.len(),
                widths@[1] <= 8, widths@[2] <= 4,
                buf@ == entries_bytes(self.entries@.subrange(0, i as int), widths@),
            decreases self.entries.len() - i,
        {
            let b = self.entries[i].to_bytes(widths);
            let ghost before = buf@;
            let mut k: usize = 0;
            while k < b.len()
                invariant k <= b@.len(), buf@ == before + b@.subrange(0, k as int),
                decreases b.len() - k,
            {
                buf.push(b[k]);
                proof { assert(buf@ =~= before + b@.subrange(0, k + 1)); }
                k += 1;
            }
            proof {
                assert(b@.subrange(0, b@.len() as int) =~= b@);
                assert(self.entries@.subrange(0, i + 1).drop_last() =~= self.entries@.subrange(0, i as int));
            }
            i += 1;
        }
        proof { assert(self.entries@.subrange(0, self.entries@.len() as int) =~= self.entries@); }
        buf
    }
}

/// A parsed cross-reference stream.
#[derive(Debug, Clone)]
pub struct XRefStream {
    /// Highest object number plus one.
    pub size: u32,
    /// Field widths `[type, field 2, field 3]`.
    pub widths: [u16; 3],
    /// Subsections.
    pub subsections: Vec<XRefSubsection>,
    /// Object number of the catalog.
    pub root: Option<u32>,
    /// Object number of the document information dictionary.
    pub info: Option<u32>,
    /// Offset of the previous cross-reference section.
    pub prev: Option<u64>,
}

/// The entry for `obj_num`: in the first subsection whose range holds it.
pub open spec fn lookup_spec(subs: Seq<XRefSubsection>, obj_num: u32, i: int) -> Option<XRefEntry>
    decreases subs.len() - i,
{
    if i < 0 || i >= subs.len() {
        None
    } else if subs[i].start <= obj_num < subs[i].start + subs[i].count {
        let idx = obj_num - subs[i].start;
        if idx < subs[i].entries@.len() { Some(subs[i].entries@[idx]) } else { None }
    } else {
        lookup_spec(subs, obj_num, i + 1)
    }
}

/// An integer item as a `u16` (truncating), when it is an integer.
pub open spec fn int_u16(v: CosValue) -> Option<u16> {
    match v {
        CosValue::Integer(n) => Some((n as i64) as u16),
        _ => None,
    }
}

/// The `/W` widths, when `/W` is an array of three integers.
pub open spec fn widths_spec(d: Seq<(Seq<u8>, CosValue)>) -> Option<Seq<u16>> {
    match dict_lookup(d, lit("W")) {
        Some(CosValue::Array(a)) => if a.len() == 3 && int_u16(a[0]) is Some && int_u16(a[1]) is Some
            && int_u16(a[2]) is Some {
            Some(seq![int_u16(a[0])->Some_0, int_u16(a[1])->Some_0, int_u16(a[2])->Some_0])
        } else {
            None
        },
        _ => None,
    }
}

/// The object number a reference under `key` points to.
pub open spec fn ref_number(d: Seq<(Seq<u8>, CosValue)>, key: Seq<u8>) -> Option<u32> {
    match dict_lookup(d, key) {
        Some(CosValue::Ref(n, _)) => Some(n),
        _ => None,
    }
}

/// An integer item as `u32` (truncated); `None` for anything else.
pub open spec fn int_u32(v: CosValue) -> Option<u32> {
    match v {
        CosValue::Integer(n) => Some((n as i64) as u32),
        _ => None,
    }
}

/// The `(start, count)` pairs of an `/Index` array from `i`: items two by
/// two, a pair with an item that is not an integer left out, a last item
/// without a partner ignored.
pub open spec fn index_pairs_from(a: Seq<CosValue>, i: int) -> Seq<(u32, u32)>
    decreases a.len() - i,
{
    if i < 0 || i + 1 >= a.len() {
        Seq::empty()
    } else {
        let rest = index_pairs_from(a, i + 2);
        match (int_u32(a[i]), int_u32(a[i + 1])) {
            (Some(x), Some(y)) => seq![(x, y)] + rest,
            _ => rest,
        }
    }
}

/// The subsections a stream dictionary announces: its `/Index` pairs, or
/// one subsection of `size` entries from 0.
pub open spec fn index_pairs(d: Seq<(Seq<u8>, CosValue)>, size: u32) -> Seq<(u32, u32)> {
    match dict_lookup(d, lit("Index")) {
        Some(CosValue::Array(a)) => index_pairs_from(a, 0),
        _ => seq![(0u32, size)],
    }
}

/// Reading `k` entries of widths `w` from `pos`: the entries and where
/// reading stops; `None` when the data runs short, the type field has no
/// width, or an entry does not decode.
pub open spec fn read_entries(data: Seq<u8>, w: Seq<u16>, pos: int, k: nat) -> Option<(Seq<XRefEntry>, int)>
    decreases k,
{
    if k == 0 {
        Some((Seq::empty(), pos))
    } else {
        let ew = w[0] + w[1] + w[2];
        if ew > data.len() - pos || w[0] == 0 {
            None
        } else {
            match entry_from_bytes(data.subrange(pos, data.len() as int), w) {
                None => None,
                Some(e) => match read_entries(data, w, pos + ew, (k - 1) as nat) {
                    Some((es, q)) => Some((seq![e] + es, q)),
                    None => None,
                },
            }
        }
    }
}

/// The subsections read for the pairs from `p`, data from `pos`: each
/// start with its entries.
pub open spec fn read_subsections(data: Seq<u8>, w: Seq<u16>, pairs: Seq<(u32, u32)>, p: int, pos: int)
    -> Option<Seq<(u32, Seq<XRefEntry>)>>
    decreases pairs.len() - p,
{
    if p < 0 || p >= pairs.len() {
        Some(Seq::empty())
    } else {
        match read_entries(data, w, pos, pairs[p].1 as nat) {
            None => None,
            Some((es, q)) => match read_subsections(data, w, pairs, p + 1, q) {
                Some(rest) => Some(seq![(pairs[p].0, es)] + rest),
                None => None,
            },
        }
    }
}

/// `subs` holds the subsections `ss`: same starts and entries, each count
/// the number of its entries.
pub open spec fn subsections_match(subs: Seq<XRefSubsection>, ss: Seq<(u32, Seq<XRefEntry>)>) -> bool {
    &&& subs.len() == ss.len()
    &&& forall|i: int| 0 <= i < ss.len() ==> (#[trigger] subs[i]).start == ss[i].0 && subs[i].entries@ == ss[i].1
        && subs[i].count as int == ss[i].1.len()
}

/// `r` with `pre` in front of its entries.
pub open spec fn entries_after(pre: Seq<XRefEntry>, r: Option<(Seq<XRefEntry>, int)>) -> Option<(Seq<XRefEntry>, int)> {
    match r {
        Some((es, q)) => Some((pre + es, q)),
        None => None,
    }
}

/// `r` with `pre` in front.
pub open spec fn subsections_after(pre: Seq<(u32, Seq<XRefEntry>)>, r: Option<Seq<(u32, Seq<XRefEntry>)>>)
    -> Option<Seq<(u32, Seq<XRefEntry>)>> {
    match r {
        Some(ss) => Some(pre + ss),
        None => None,
    }
}

fn int_u16_of(o: &CosObject) -> (r: Option<u16>)
    ensures r == int_u16(o@),
{
    match o {
        CosObject::Integer(n) => Some(*n as u16),
        _ => None,
    }
}

fn int_u32_of(o: &CosObject) -> (r: Option<u32>)
    ensures r == (match o@ { CosValue::Integer(n) => Some((n as i64) as u32), _ => None::<u32> }),
{
    match o {
        CosObject::Integer(n) => Some(*n as u32),
        _ => None,
    }
}

fn ref_number_of(d: &CosDictionary, key: &str) -> (r: Option<u32>)
    ensures r == ref_number(d@, lit(key)),
{
    match d.get(&CosName::named(key)) {
        Some(CosObject::Reference(id)) => Some(id.object_number),
        _ => None,
    }
}

/// The encodings of the first `n` subsections, in order.
pub open spec fn subsections_bytes(subs: Seq<XRefSubsection>, w: Seq<u16>, n: int) -> Seq<u8>
    decreases n,
{
    if n <= 0 { Seq::empty() } else { subsections_bytes(subs, w, n - 1) + entries_bytes(subs[n - 1].entries@, w) }
}

proof fn lemma_key_lits()
    ensures
        lit("Type") != lit("Size"), lit("Type") != lit("W"), lit("Size") != lit("W"),
        lit("Index") != lit("Type"), lit("Index") != lit("Size"),
        lit("Root") != lit("Type"), lit("Root") != lit("Size"),
        lit("Info") != lit("Type"), lit("Info") != lit("Size"),
        lit("Prev") != lit("Type"), lit("Prev") != lit("Size"),
{
    reveal_strlit("Type");
    vstd::string::is_ascii_spec_bytes("Type");
    reveal_strlit("Size");
    vstd::string::is_ascii_spec_bytes("Size");
    reveal_strlit("W");
    vstd::string::is_ascii_spec_bytes("W");
    reveal_strlit("Index");
    vstd::string::is_ascii_spec_bytes("Index");
    reveal_strlit("Root");
    vstd::string::is_ascii_spec_bytes("Root");
    reveal_strlit("Info");
    vstd::string::is_ascii_spec_bytes("Info");
    reveal_strlit("Prev");
    vstd::string::is_ascii_spec_bytes("Prev");
    assert(lit("Type")[0] != lit("Size")[0]);
    assert(lit("Root")[0] != lit("Type")[0]);
    assert(lit("Root")[0] != lit("Size")[0]);
    assert(lit("Prev")[0] != lit("Type")[0]);
    assert(lit("Prev")[0] != lit("Size")[0]);
}

impl XRefStream {
    /// An empty stream with widths `[1, 2, 2]`.
    pub fn new(size: u32) -> (r: Self)
        ensures r.size == size, r.widths@ == seq![1u16, 2u16, 2u16], r.subsections@.len() == 0,
            r.root is None, r.info is None, r.prev is None,
    {
        let r = XRefStream { size, widths: [1, 2, 2], subsections: Vec::new(), root: None, info: None, prev: None };
        assert(r.widths@ =~= seq![1u16, 2u16, 2u16]);
        r
    }

    /// Parses a cross-reference stream from its dictionary and decoded data.
    /// `None` when `/Size` or a three-integer `/W` is missing, or the data
    /// is too short for the entries `/Index` announces.
    pub fn from_stream(dict: &CosDictionary, data: &[u8]) -> (r: Option<Self>)
        ensures
            r is Some ==> {
                &&& dict_lookup(dict@, lit("Size")) matches Some(CosValue::Integer(n))
                    && r->Some_0.size == (n as i64) as u32
                &&& widths_spec(dict@) == Some(r->Some_0.widths@)
                &&& r->Some_0.root == ref_number(dict@, lit("Root"))
                &&& r->Some_0.info == ref_number(dict@, lit("Info"))
                &&& r->Some_0.prev == (match dict_lookup(dict@, lit("Prev")) {
                    Some(CosValue::Integer(p)) => Some((p as i64) as u64),
                    _ => None::<u64>,
                })
            },
            !(dict_lookup(dict@, lit("Size")) matches Some(CosValue::Integer(_))) ==> r is None,
            widths_spec(dict@) is None ==> r is None,
            match (dict_lookup(dict@, lit("Size")), widths_spec(dict@)) {
                (Some(CosValue::Integer(n)), Some(wv)) =>
                    match read_subsections(data@, wv, index_pairs(dict@, (n as i64) as u32), 0, 0) {
                        Some(ss) => r is Some && subsections_match(r->Some_0.subsections@, ss),
                        None => r is None,
                    },
                _ => true,
            },
    {
        let size: u32 = match dict.get_int(&CosName::named("Size")) {
            Some(n) => n as u32,
            None => return None,
        };
        let w: [u16; 3] = match dict.get_array(&CosName::named("W")) {
            Some(arr) => {
                if arr.len() != 3 {
                    return None;
                }
                proof {
                    lemma_view_objs(arr@);
                    assert(view_objs(arr@)[0] == arr@[0]@);
                    assert(view_objs(arr@)[1] == arr@[1]@);
                    assert(view_objs(arr@)[2] == arr@[2]@);
                }
                let w0 = match int_u16_of(&arr[0]) { Some(x) => x, None => return None };
                let w1 = match int_u16_of(&arr[1]) { Some(x) => x, None => return None };
                let w2 = match int_u16_of(&arr[2]) { Some(x) => x, None => return None };
                let w: [u16; 3] = [w0, w1, w2];
                assert(w@ =~= widths_spec(dict@)->Some_0);
                w
            }
            None => return None,
        };
        let mut indices: Vec<(u32, u32)> = Vec::new();
        match dict.get_array(&CosName::named("Index")) {
            Some(arr) => {
                let ghost a = view_objs(arr@);
                proof { lemma_view_objs(arr@); }
                let mut i: usize = 0;
                while i < arr.len()
                    invariant
                        i <= arr@.len(),
                        a == view_objs(arr@), a.len() == arr@.len(),
                        forall|q: int| 0 <= q < arr@.len() ==> a[q] == (#[trigger] arr@[q])@,
                        indices@ + index_pairs_from(a, i as int) == index_pairs_from(a, 0),
                    decreases arr.len() - i,
                {
                    let ghost before = indices@;
                    if i < arr.len() - 1 {
                        match (int_u32_of(&arr[i]), int_u32_of(&arr[i + 1])) {
                            (Some(x), Some(y)) => {
                                indices.push((x, y));
                                proof {
                                    assert(index_pairs_from(a, i as int) == seq![(x, y)] + index_pairs_from(a, i + 2));
                                    assert(indices@ + index_pairs_from(a, i + 2) =~= before + index_pairs_from(a, i as int));
                                }
                            }
                            _ => {}
                        }
                    }
                    if arr.len() - i >= 2 {
                        i += 2;
                    } else {
                        i = arr.len();
                        proof { assert(index_pairs_from(a, i as int) =~= Seq::<(u32, u32)>::empty()); }
                    }
                }
                proof { assert(indices@ + index_pairs_from(a, i as int) =~= indices@); }
            }
            None => {
                indices.push((0, size));
                proof { assert(indices@ =~= seq![(0u32, size)]); }
            }
        }
        let ghost pairs = index_pairs(dict@, size);
        let ghost wv = widths_spec(dict@)->Some_0;
        proof { assert(indices@ == pairs); assert(w@ == wv); }
        let entry_width = w[0] as usize + w[1] as usize + w[2] as usize;
        let mut subsections: Vec<XRefSubsection> = Vec::new();
        let mut pos: usize = 0;
        let mut p: usize = 0;
        let ghost mut done: Seq<(u32, Seq<XRefEntry>)> = Seq::empty();
        proof {
            if let Some(ss) = read_subsections(data@, wv, pairs, 0, 0) {
                assert(done + ss =~= ss);
            }
            assert(subsections@ =~= Seq::<XRefSubsection>::empty());
        }
        while p < indices.len()
            invariant
                pos <= data@.len(),
                p <= indices@.len(),
                indices@ == pairs,
                w@ == wv,
                entry_width == wv[0] + wv[1] + wv[2],
                subsections_after(done, read_subsections(data@, wv, pairs, p as int, pos as int))
                    == read_subsections(data@, wv, pairs, 0, 0),
                subsections_match(subsections@, done),
                widths_spec(dict@) == Some(wv),
                pairs == index_pairs(dict@, size),
                dict_lookup(dict@, lit("Size")) matches Some(CosValue::Integer(n)) && size == (n as i64) as u32,
            decreases indices.len() - p,
        {
            let (start, count) = indices[p];
            let mut sub = XRefSubsection::new(start);
            let mut k: u32 = 0;
            let ghost pos0 = pos as int;
            proof {
                if let Some((es, q)) = read_entries(data@, wv, pos0, count as nat) {
                    assert(sub.entries@ + es =~= es);
                }
            }
            while k < count
                invariant
                    pos <= data@.len(),
                    k <= count,
                    w@ == wv,
                    entry_width == wv[0] + wv[1] + wv[2],
                    sub.start == start,
                    sub.entries@.len() == k,
                    sub.count as int == sub.entries@.len(),
                    entries_after(sub.entries@, read_entries(data@, wv, pos as int, (count - k) as nat))
                        == read_entries(data@, wv, pos0, count as nat),
                    p < pairs.len(),
                    pairs[p as int] == (start, count),
                    widths_spec(dict@) == Some(wv),
                    pairs == index_pairs(dict@, size),
                    dict_lookup(dict@, lit("Size")) matches Some(CosValue::Integer(n)) && size == (n as i64) as u32,
                    subsections_after(done, read_subsections(data@, wv, pairs, p as int, pos0))
                        == read_subsections(data@, wv, pairs, 0, 0),
                decreases count - k,
            {
                if entry_width > data.len() - pos {
                    proof { assert(read_entries(data@, wv, pos0, count as nat) is None); }
                    return None;
                }
                if w[0] == 0 {
                    proof { assert(read_entries(data@, wv, pos0, count as nat) is None); }
                    return None;
                }
                let e = match XRefEntry::from_bytes(&data[pos..data.len()], &w) {
                    Some(e) => e,
                    None => {
                        proof { assert(read_entries(data@, wv, pos0, count as nat) is None); }
                        return None;
                    }
                };
                let ghost before = sub.entries@;
                sub.add_entry(e);
                proof {
                    let rest = read_entries(data@, wv, pos + entry_width, (count - k - 1) as nat);
                    assert(read_entries(data@, wv, pos as int, (count - k) as nat) == match rest {
                        Some((es, q)) => Some((seq![e] + es, q)),
                        None => None::<(Seq<XRefEntry>, int)>,
                    });
                    if let Some((es, q)) = rest {
                        assert(sub.entries@ + es =~= before + (seq![e] + es));
                    }
                }
                pos += entry_width;
                k += 1;
            }
            proof {
                assert(read_entries(data@, wv, pos as int, 0) == Some((Seq::<XRefEntry>::empty(), pos as int)));
                assert(sub.entries@ + Seq::<XRefEntry>::empty() =~= sub.entries@);
                assert(read_entries(data@, wv, pos0, count as nat) == Some((sub.entries@, pos as int)));
            }
            let ghost old_done = done;
            let ghost prev_subs = subsections@;
            subsections.push(sub);
            proof {
                done = done.push((start, sub.entries@));
                let rest = read_subsections(data@, wv, pairs, p + 1, pos as int);
                if let Some(rs) = rest {
                    assert(done + rs =~= old_done + (seq![(start, sub.entries@)] + rs));
                }
                assert(subsections_match(subsections@, done)) by {
                    assert forall|i: int| 0 <= i < done.len() implies (#[trigger] subsections@[i]).start == done[i].0
                        && subsections@[i].entries@ == done[i].1 && subsections@[i].count as int == done[i].1.len() by {
                        if i < old_done.len() {
                            assert(subsections@[i] == prev_subs[i]);
                        }
                    }
                }
            }
            p += 1;
        }
        proof {
            assert(read_subsections(data@, wv, pairs, p as int, pos as int) == Some(Seq::<(u32, Seq<XRefEntry>)>::empty()));
            assert(done + Seq::<(u32, Seq<XRefEntry>)>::empty() =~= done);
        }
        let root = ref_number_of(dict, "Root");
        let info = ref_number_of(dict, "Info");
        let prev = match dict.get_int(&CosName::named("Prev")) {
            Some(n) => Some(n as u64),
            None => None,
        };
        Some(XRefStream { size, widths: w, subsections, root, info, prev })
    }

    /// The stream object: `/Type /XRef`, `/Size`, `/W`, `/Index` (unless
    /// there is exactly one subsection starting at 0), `/Root`, `/Info`,
    /// `/Prev`, and the subsections' encodings as data.
    pub fn to_stream(&self) -> (r: CosStream)
        requires self.widths@[1] <= 8, self.widths@[2] <= 4,
        ensures
            dict_lookup(r.dictionary@, lit("Type")) == Some(CosValue::Name(lit("XRef"))),
            dict_lookup(r.dictionary@, lit("Size")) == Some(CosValue::Integer(self.size as int)),
            r.data@ == subsections_bytes(self.subsections@, self.widths@, self.subsections@.len() as int),
    {
        let mut data: Vec<u8> = Vec::new();
        let mut i: usize = 0;
        while i < self.subsections.len()
            invariant
                self.widths@[1] <= 8, self.widths@[2] <= 4,
                i <= self.subsections@.len(),
                data@ == subsections_bytes(self.subsections@, self.widths@, i as int),
            decreases self.subsections.len() - i,
        {
            let b = self.subsections[i].to_bytes(&self.widths);
            let ghost before = data@;
            let mut k: usize = 0;
            while k < b.len()
                invariant k <= b@.len(), data@ == before + b@.subrange(0, k as int),
                decreases b.len() - k,
            {
                data.push(b[k]);
                proof { assert(data@ =~= before + b@.subrange(0, k + 1)); }
                k += 1;
            }
            proof { assert(b@.subrange(0, b@.len() as int) =~= b@); }
            i += 1;
        }
        let needs_index = self.subsections.len() != 1 || self.subsections[0].start != 0;
        let mut index: Vec<CosObject> = Vec::new();
        if needs_index {
            let mut i: usize = 0;
            while i < self.subsections.len()
                decreases self.subsections.len() - i,
            {
                index.push(CosObject::Integer(self.subsections[i].start as i64));
                index.push(CosObject::Integer(self.subsections[i].count as i64));
                i += 1;
            }
        }
        let mut dict = CosDictionary::new();
        dict.set(CosName::named("Type"), CosObject::Name(CosName::named("XRef")));
        let ghost d1 = dict@;
        dict.set(CosName::named("Size"), CosObject::Integer(self.size as i64));
        proof {
            lemma_key_lits();
            crate::cos::lemma_lookup_insert(Seq::empty(), lit("Type"), CosValue::Name(lit("XRef")), lit("Type"));
            crate::cos::lemma_lookup_insert(d1, lit("Size"), CosValue::Integer(self.size as int), lit("Type"));
            crate::cos::lemma_lookup_insert(d1, lit("Size"), CosValue::Integer(self.size as int), lit("Size"));
        }
        let ghost d2 = dict@;
        let wv = vec![
            CosObject::Integer(self.widths[0] as i64),
            CosObject::Integer(self.widths[1] as i64),
            CosObject::Integer(self.widths[2] as i64),
        ];
        let wobj = CosObject::Array(wv);
        let ghost wval = wobj@;
        dict.set(CosName::named("W"), wobj);
        proof {
            crate::cos::lemma_lookup_insert(d2, lit("W"), wval, lit("Type"));
            crate::cos::lemma_lookup_insert(d2, lit("W"), wval, lit("Size"));
        }
        if needs_index {
            proof { lemma_key_lits(); }
            self.set_keeping(&mut dict, "Index", CosObject::Array(index));
        }
        proof { lemma_key_lits(); }
        if let Some(root) = self.root {
            self.set_keeping(&mut dict, "Root", CosObject::Reference(ObjectId::new(root, 0)));
        }
        if let Some(info) = self.info {
            self.set_keeping(&mut dict, "Info", CosObject::Reference(ObjectId::new(info, 0)));
        }
        if let Some(prev) = self.prev {
            self.set_keeping(&mut dict, "Prev", CosObject::Integer(prev as i64));
        }
        CosStream::new(dict, data)
    }

    /// Sets `key` (one of `Index`, `Root`, `Info`, `Prev`) in `dict`,
    /// keeping what `/Type` and `/Size` map to.
    fn set_keeping(&self, dict: &mut CosDictionary, key: &str, value: CosObject)
        requires lit(key) != lit("Type"), lit(key) != lit("Size"),
        ensures
            final(dict)@ == dict_insert(old(dict)@, lit(key), value@),
            dict_lookup(final(dict)@, lit("Type")) == dict_lookup(old(dict)@, lit("Type")),
            dict_lookup(final(dict)@, lit("Size")) == dict_lookup(old(dict)@, lit("Size")),
    {
        let ghost before = dict@;
        let ghost vv = value@;
        dict.set(CosName::named(key), value);
        proof {
            crate::cos::lemma_lookup_insert(before, lit(key), vv, lit("Type"));
            crate::cos::lemma_lookup_insert(before, lit(key), vv, lit("Size"));
        }
    }

    /// Looks up the entry of an object number.
    pub fn lookup(&self, obj_num: u32) -> (r: Option<XRefEntry>)
        ensures r == lookup_spec(self.subsections@, obj_num, 0),
    {
        let mut i: usize = 0;
        while i < self.subsections.len()
            invariant i <= self.subsections@.len(),
                lookup_spec(self.subsections@, obj_num, i as int) == lookup_spec(self.subsections@, obj_num, 0),
            decreases self.subsections.len() - i,
        {
            let s = &self.subsections[i];
            if obj_num >= s.start && (obj_num as u64) < s.start as u64 + s.count as u64 {
                let idx = (obj_num - s.start) as usize;
                if idx < s.entries.len() {
                    return Some(s.entries[idx]);
                }
                return None;
            }
            i += 1;
        }
        None
    }
}

/// `256` to the power `w`.
pub open spec fn pow256(w: int) -> int
    decreases w,
{
    if w <= 0 { 1 } else { 256 * pow256(w - 1) }
}

proof fn lemma_pow256_bound(w: int)
    requires 0 <= w <= 8,
    ensures 1 <= pow256(w) <= 0x1_0000_0000_0000_0000,
{
    lemma_pow256_pos(w);
    lemma_pow256_grows(w, 8);
    assert(pow256(8) == 0x1_0000_0000_0000_0000) by { reveal_with_fuel(pow256, 9); }
}

proof fn lemma_pow256_grows(a: int, b: int)
    requires 0 <= a <= b,
    ensures pow256(a) <= pow256(b),
    decreases b,
{
    if a < b {
        lemma_pow256_grows(a, b - 1);
        lemma_pow256_pos(b - 1);
    }
}

proof fn lemma_pow256_pos(w: int)
    ensures pow256(w) >= 1,
    decreases w,
{
    if w > 0 {
        lemma_pow256_pos(w - 1);
    }
}

proof fn lemma_shr_compose(v: u64, s: u64)
    by (bit_vector)
    requires s <= 48,
    ensures (v >> 8u64) >> s == v >> (s + 8),
{
}

proof fn lemma_shr8(v: u64)
    by (bit_vector)
    ensures v >> 8u64 == v / 256, v & 0xff == v % 256, v >> 0u64 == v,
{
}

/// The big-endian bytes of `v` read back give `v` modulo `256^w`.
proof fn lemma_be_round(v: u64, w: int)
    requires 0 <= w <= 8,
    ensures be_value(be_bytes(v, w)) == (v as int) % pow256(w),
    decreases w,
{
    lemma_pow256_bound(w);
    if w == 0 {
        assert(be_bytes(v, 0) =~= Seq::<u8>::empty());
    } else {
        let hi = v >> 8u64;
        lemma_shr8(v);
        let bs = be_bytes(v, w);
        assert forall|k: int| 0 <= k < w - 1 implies #[trigger] bs.drop_last()[k] == be_bytes(hi, w - 1)[k] by {
            let s = ((w - 2 - k) * 8) as u64;
            assert(((w - 1 - k) * 8) as u64 == s + 8);
            lemma_shr_compose(v, s);
        }
        assert(bs.drop_last() =~= be_bytes(hi, w - 1));
        assert(bs.last() == ((v >> 0u64) & 0xff) as u8);
        lemma_be_round(hi, w - 1);
        lemma_pow256_bound(w - 1);
        let prev = (hi as int) % pow256(w - 1);
        assert(0 <= prev < pow256(w - 1));
        assert(prev * 256 + (v as int) % 256 < pow256(w)) by (nonlinear_arith)
            requires 0 <= prev < pow256(w - 1), pow256(w) == 256 * pow256(w - 1), 0 <= (v as int) % 256 < 256;
        vstd::arithmetic::div_mod::lemma_breakdown(v as int, 256, pow256(w - 1));
        assert(256 * pow256(w - 1) == pow256(w));
        assert((v as int) % pow256(w) == 256 * (((v as int) / 256) % pow256(w - 1)) + (v as int) % 256);
    }
}

/// An entry written with widths `w` reads back as itself, when its two
/// fields fit in `w[1]` and `w[2]` bytes.
pub proof fn lemma_entry_round_trip(e: XRefEntry, w: Seq<u16>)
    requires
        w.len() == 3,
        w[0] >= 1,
        w[1] <= 8,
        w[2] <= 4,
        entry_field1(e) < pow256(w[1] as int),
        entry_field2(e) < pow256(w[2] as int),
    ensures entry_from_bytes(entry_bytes(e, w), w) == Some(e),
{
    let data = entry_bytes(e, w);
    let a = w[0] as int;
    let b = a + w[1];
    let c = b + w[2];
    let t = Seq::new(w[0] as nat, |k: int| entry_type(e));
    let b1 = be_bytes(entry_field1(e), w[1] as int);
    let b2 = be_bytes(entry_field2(e) as u64, w[2] as int);
    assert(data == t + b1 + b2);
    assert(data.subrange(a, b) =~= b1);
    assert(data.subrange(b, c) =~= b2);
    assert(data[a - 1] == entry_type(e));
    lemma_be_round(entry_field1(e), w[1] as int);
    lemma_be_round(entry_field2(e) as u64, w[2] as int);
    lemma_pow256_bound(w[2] as int);
    lemma_pow256_grows(w[2] as int, 4);
    assert(pow256(4) == 0x1_0000_0000) by { reveal_with_fuel(pow256, 5); }
    lemma_pow256_bound(w[1] as int);
    vstd::arithmetic::div_mod::lemma_small_mod(entry_field1(e) as nat, pow256(w[1] as int) as nat);
    vstd::arithmetic::div_mod::lemma_small_mod(entry_field2(e) as nat, pow256(w[2] as int) as nat);
    assert(be_value(b1) == entry_field1(e) as int);
    assert(be_value(b2) == entry_field2(e) as int);
}

} // verus!

//! The document: errors, the object store, the decoded-stream cache, and
//! loading a file's objects through its cross-reference table (strictly, or
//! leniently with recovery).

use vstd::prelude::*;
use std::sync::Arc;
use crate::bytes::{lit, clone_bytes, starts_with_at, eq_str};
use crate::text::{digits_text, push_digits, push_str};
use crate::cos::{CosDictionary, CosName, CosObject, CosStream, CosValue, ObjectId, dict_lookup};
use crate::io::{decode_stream, result_matches, decode_spec};
use crate::parser::lexer::{digits_value, is_digit};
use crate::parser::num::{all_digits, parse_unsigned};
use crate::parser::objstm::{ObjectStream, dict_u32, objstm_bytes, objstm_entries};
use crate::parser::parser::{IndirectOut, ParseError, ParseOut, Parser, parse_indirect, parse_value};
use crate::parser::xref::{XRefEntry, XRefTable, load_xref, read_stream_data, find_stream_keyword,
    xref_find, startxref_spec, first_stream_kw, stream_body, xref_load_spec, XT, xt_insert, merge_from};

verus! {

#[verifier::external_type_specification]
#[verifier::external_body]
pub struct ExIoError(std::io::Error);

/// Errors of loading and interpreting a document.
#[derive(Debug)]
#[non_exhaustive]
pub enum PdfError {
    /// Reading the input failed.
    Io(std::io::Error),
    /// The bytes do not follow the PDF syntax.
    Parse {
        offset: Option<u64>,
        context: String,
    },
    /// An object could not be resolved.
    Xref {
        object_id: Option<ObjectId>,
    },
    /// A font could not be interpreted.
    Font {
        font_name: String,
    },
    /// Decryption failed.
    Crypto,
    /// The document uses a feature this library does not handle.
    Unsupported {
        feature: &'static str,
    },
}

impl PdfError {
    /// A parse error with a context message.
    pub fn parse(context: &str, offset: Option<u64>) -> (r: PdfError)
        ensures r matches PdfError::Parse { offset: o, context: c } && o == offset && c@ == context@,
    {
        PdfError::Parse { offset, context: context.to_owned() }
    }

    /// The parse error that a parser error maps to: its offset and message.
    pub fn from_parse_error(e: ParseError) -> (r: PdfError)
        ensures r matches PdfError::Parse { offset: o, context: c } && o == Some(e.offset as u64) && c == e.message,
    {
        PdfError::Parse { offset: Some(e.offset as u64), context: e.message }
    }
}

/// A result whose error is a [`PdfError`].
pub type PdfResult<T> = Result<T, PdfError>;

/// What a lenient load recovered from.
#[derive(Debug, Clone)]
#[non_exhaustive]
pub struct RecoveryReport {
    /// One message per recovery action.
    pub warnings: Vec<String>,
    /// The cross-reference data was broken and a linear scan was used.
    pub xref_recovered: bool,
    /// Number of objects that could not be parsed and were skipped.
    pub objects_skipped: usize,
}

impl RecoveryReport {
    /// A report with nothing recorded.
    pub fn new() -> (r: Self)
        ensures r.warnings@.len() == 0, !r.xref_recovered, r.objects_skipped == 0,
    {
        RecoveryReport { warnings: Vec::new(), xref_recovered: false, objects_skipped: 0 }
    }

    /// `true` when no warning was recorded.
    pub fn is_clean(&self) -> (r: bool)
        ensures r == (self.warnings@.len() == 0),
    {
        self.warnings.len() == 0
    }
}

impl Default for RecoveryReport {
    fn default() -> (r: Self)
        ensures r.warnings@.len() == 0, !r.xref_recovered, r.objects_skipped == 0,
    {
        RecoveryReport::new()
    }
}

// ---------------------------------------------------------------------------
// Object store
// ---------------------------------------------------------------------------

/// The object stored for `id`, searching from index `i`.
pub open spec fn store_find_from(s: Seq<(ObjectId, CosValue)>, id: ObjectId, i: int) -> Option<CosValue>
    decreases s.len() - i,
{
    if i < 0 || i >= s.len() {
        None
    } else if s[i].0 == id {
        Some(s[i].1)
    } else {
        store_find_from(s, id, i + 1)
    }
}

/// The object stored for `id`.
pub open spec fn store_find(s: Seq<(ObjectId, CosValue)>, id: ObjectId) -> Option<CosValue> {
    store_find_from(s, id, 0)
}

/// Following references through the store, at most `fuel` times.
pub open spec fn resolve_spec(s: Seq<(ObjectId, CosValue)>, v: CosValue, fuel: nat) -> Option<CosValue>
    decreases fuel,
{
    match v {
        CosValue::Ref(n, g) => if fuel == 0 {
            None
        } else {
            match store_find(s, ObjectId { object_number: n, generation: g }) {
                Some(w) => resolve_spec(s, w, (fuel - 1) as nat),
                None => None,
            }
        },
        other => Some(other),
    }
}

proof fn lemma_store_find_from(s: Seq<(ObjectId, CosValue)>, id: ObjectId, i: int)
    requires 0 <= i <= s.len(),
    ensures
        store_find_from(s, id, i) is None <==> forall|j: int| i <= j < s.len() ==> s[j].0 != id,
    decreases s.len() - i,
{
    if i < s.len() && s[i].0 != id {
        lemma_store_find_from(s, id, i + 1);
    }
}

proof fn lemma_store_find_at(s: Seq<(ObjectId, CosValue)>, id: ObjectId, i: int, p: int)
    requires 0 <= i <= p < s.len(), s[p].0 == id, forall|j: int| i <= j < p ==> s[j].0 != id,
    ensures store_find_from(s, id, i) == Some(s[p].1),
    decreases p - i,
{
    if i < p {
        lemma_store_find_at(s, id, i + 1, p);
    }
}

/// The largest object number in `s` (0 for none).
pub open spec fn store_max(s: Seq<(ObjectId, CosValue)>) -> u32
    decreases s.len(),
{
    if s.len() == 0 {
        0
    } else {
        let m = store_max(s.drop_last());
        if s.last().0.object_number > m { s.last().0.object_number } else { m }
    }
}

/// Every object number in `s` is at most `store_max(s)`.
pub proof fn lemma_store_max(s: Seq<(ObjectId, CosValue)>)
    ensures forall|j: int| 0 <= j < s.len() ==> (#[trigger] s[j]).0.object_number <= store_max(s),
    decreases s.len(),
{
    if s.len() > 0 {
        lemma_store_max(s.drop_last());
        assert forall|j: int| 0 <= j < s.len() implies (#[trigger] s[j]).0.object_number <= store_max(s) by {
            if j < s.len() - 1 {
                assert(s.drop_last()[j] == s[j]);
            }
        }
    }
}

/// In a store whose ids are distinct, the entry at `j` is what `store_find`
/// gives for its id.
pub proof fn lemma_store_find_distinct(s: Seq<(ObjectId, CosValue)>, j: int)
    requires
        0 <= j < s.len(),
        forall|a: int, b: int| 0 <= a < b < s.len() ==> s[a].0 != s[b].0,
    ensures store_find(s, s[j].0) == Some(s[j].1),
{
    lemma_store_find_at(s, s[j].0, 0, j);
}

/// A found id occurs in the store.
pub proof fn lemma_store_find_from_some(s: Seq<(ObjectId, CosValue)>, id: ObjectId)
    requires store_find(s, id) is Some,
    ensures exists|a: int| 0 <= a < s.len() && s[a].0 == id,
{
    lemma_store_find_from(s, id, 0);
}

/// A stored id's number is at most `store_max`.
pub proof fn lemma_stored_below_max(s: Seq<(ObjectId, CosValue)>, id: ObjectId)
    requires store_find(s, id) is Some,
    ensures id.object_number <= store_max(s),
{
    lemma_store_find_from(s, id, 0);
    lemma_store_max(s);
    let j = choose|j: int| 0 <= j < s.len() && s[j].0 == id;
    assert(s[j].0.object_number <= store_max(s));
}

/// The store's pairs seen as values.
pub open spec fn store_view(s: Seq<(ObjectId, CosObject)>) -> Seq<(ObjectId, CosValue)> {
    Seq::new(s.len(), |i: int| (s[i].0, s[i].1@))
}

/// Every stored and every recorded object number of `d` is at most `m`.
pub open spec fn ids_at_most(d: Document, m: int) -> bool {
    &&& forall|q: ObjectId| #[trigger] store_find(d.objects@, q) is Some ==> q.object_number <= m
    &&& forall|k: int| 0 <= k < d.xref@.len() ==> (#[trigger] d.xref@[k]).0.object_number <= m
}

/// The loaded indirect objects, by object id.
#[derive(Debug)]
pub struct ObjectStore {
    objects: Vec<(ObjectId, CosObject)>,
}

impl View for ObjectStore {
    type V = Seq<(ObjectId, CosValue)>;

    closed spec fn view(&self) -> Seq<(ObjectId, CosValue)> {
        store_view(self.objects@)
    }
}

impl ObjectStore {
    #[verifier::type_invariant]
    closed spec fn inv(&self) -> bool {
        forall|i: int, j: int| 0 <= i < j < self.objects@.len() ==> self.objects@[i].0 != self.objects@[j].0
    }

    /// An empty store.
    pub fn new() -> (r: Self)
        ensures r@ == Seq::<(ObjectId, CosValue)>::empty(),
    {
        let r = ObjectStore { objects: Vec::new() };
        assert(r@ =~= Seq::<(ObjectId, CosValue)>::empty());
        r
    }

    fn position(&self, id: &ObjectId) -> (r: Option<usize>)
        ensures
            match r {
                Some(p) => p < self@.len() && self@[p as int].0 == *id && store_find(self@, *id) == Some(self@[p as int].1),
                None => store_find(self@, *id) is None,
            },
    {
        let mut i: usize = 0;
        while i < self.objects.len()
            invariant i <= self.objects@.len(), forall|j: int| 0 <= j < i ==> self@[j].0 != *id,
                self@.len() == self.objects@.len(),
            decreases self.objects.len() - i,
        {
            if self.objects[i].0.same(id) {
                proof { lemma_store_find_at(self@, *id, 0, i as int); }
                return Some(i);
            }
            i += 1;
        }
        proof { lemma_store_find_from(self@, *id, 0); }
        None
    }

    /// Stores `obj` under `id`, replacing what `id` held.
    pub fn insert(&mut self, id: ObjectId, obj: CosObject)
        ensures
            forall|q: ObjectId| #[trigger] store_find(final(self)@, q)
                == (if q == id { Some(obj@) } else { store_find(old(self)@, q) }),
            final(self)@.len() == old(self)@.len() + (if store_find(old(self)@, id) is Some { 0int } else { 1int }),
    {
        proof { use_type_invariant(&*self); }
        let ghost ov = obj@;
        let ghost s0 = self@;
        match self.position(&id) {
            Some(p) => {
                let mut objects = Vec::new();
                std::mem::swap(&mut objects, &mut self.objects);
                objects.set(p, (id, obj));
                self.objects = objects;
                proof {
                    assert(self@ =~= s0.update(p as int, (id, ov)));
                    assert forall|q: ObjectId| #[trigger] store_find(self@, q)
                        == (if q == id { Some(ov) } else { store_find(s0, q) }) by {
                        lemma_store_find_from(s0, q, 0);
                        lemma_store_find_from(self@, q, 0);
                        if q == id {
                            lemma_store_find_at(self@, q, 0, p as int);
                        } else if store_find(s0, q) is Some {
                            let k = choose|k: int| 0 <= k < s0.len() && s0[k].0 == q && forall|j: int| 0 <= j < k ==> s0[j].0 != q;
                            lemma_store_find_at(s0, q, 0, k);
                            lemma_store_find_at(self@, q, 0, k);
                        }
                    }
                }
            }
            None => {
                let mut objects = Vec::new();
                std::mem::swap(&mut objects, &mut self.objects);
                proof {
                    lemma_store_find_from(s0, id, 0);
                    assert forall|j: int| 0 <= j < objects@.len() implies objects@[j].0 != id by {
                        assert(s0[j].0 == objects@[j].0);
                    }
                }
                objects.push((id, obj));
                self.objects = objects;
                proof {
                    assert(self@ =~= s0.push((id, ov)));
                    lemma_store_find_from(s0, id, 0);
                    assert forall|q: ObjectId| #[trigger] store_find(self@, q)
                        == (if q == id { Some(ov) } else { store_find(s0, q) }) by {
                        lemma_store_find_from(s0, q, 0);
                        lemma_store_find_from(self@, q, 0);
                        if q == id {
                            lemma_store_find_at(self@, q, 0, s0.len() as int);
                        } else if store_find(s0, q) is Some {
                            let k = choose|k: int| 0 <= k < s0.len() && s0[k].0 == q && forall|j: int| 0 <= j < k ==> s0[j].0 != q;
                            lemma_store_find_at(s0, q, 0, k);
                            lemma_store_find_at(self@, q, 0, k);
                        }
                    }
                }
            }
        }
    }

    /// Removes and returns the object stored under `id`.
    pub fn take(&mut self, id: &ObjectId) -> (r: Option<CosObject>)
        ensures
            match store_find(old(self)@, *id) {
                Some(v) => r is Some && r->Some_0@ == v,
                None => r is None,
            },
            store_find(final(self)@, *id) is None,
            forall|q: ObjectId| q != *id ==> #[trigger] store_find(final(self)@, q) == store_find(old(self)@, q),
    {
        proof { use_type_invariant(&*self); }
        let ghost s0 = self@;
        match self.position(id) {
            Some(p) => {
                let mut objects = Vec::new();
                std::mem::swap(&mut objects, &mut self.objects);
                let (_, o) = objects.remove(p);
                self.objects = objects;
                proof {
                    assert(self@ =~= s0.remove(p as int));
                    lemma_store_find_from(self@, *id, 0);
                    assert forall|q: ObjectId| q != *id implies #[trigger] store_find(self@, q) == store_find(s0, q) by {
                        lemma_store_find_from(s0, q, 0);
                        lemma_store_find_from(self@, q, 0);
                        if store_find(s0, q) is Some {
                            let k = choose|k: int| 0 <= k < s0.len() && s0[k].0 == q && forall|j: int| 0 <= j < k ==> s0[j].0 != q;
                            lemma_store_find_at(s0, q, 0, k);
                            if k < p {
                                lemma_store_find_at(self@, q, 0, k);
                            } else {
                                lemma_store_find_at(self@, q, 0, k - 1);
                            }
                        }
                    }
                }
                Some(o)
            }
            None => None,
        }
    }

    /// The object stored under `id`.
    pub fn get(&self, id: &ObjectId) -> (r: Option<&CosObject>)
        ensures
            match store_find(self@, *id) {
                Some(v) => r is Some && r->Some_0@ == v,
                None => r is None,
            },
    {
        match self.position(id) {
            Some(p) => Some(&self.objects[p].1),
            None => None,
        }
    }

    /// Number of stored objects.
    pub fn len(&self) -> (r: usize)
        ensures r == self@.len(),
    {
        self.objects.len()
    }

    /// `true` when nothing is stored.
    pub fn is_empty(&self) -> (r: bool)
        ensures r == (self@.len() == 0),
    {
        self.objects.len() == 0
    }

    /// The largest stored object number (0 when the store is empty).
    pub fn max_object_number(&self) -> (r: u32)
        ensures r == store_max(self@),
    {
        let mut m: u32 = 0;
        let mut i: usize = 0;
        let ghost s = self@;
        while i < self.objects.len()
            invariant
                i <= self.objects@.len(),
                s == store_view(self.objects@),
                m == store_max(s.take(i as int)),
            decreases self.objects.len() - i,
        {
            proof { assert(s.take(i + 1).drop_last() =~= s.take(i as int)); }
            let n = self.objects[i].0.object_number;
            if n > m {
                m = n;
            }
            i += 1;
        }
        proof { assert(s.take(s.len() as int) =~= s); }
        m
    }

    /// The stored `(id, object)` pairs.
    pub fn entries(&self) -> (r: &[(ObjectId, CosObject)])
        ensures
            store_view(r@) == self@,
            forall|i: int, j: int| 0 <= i < j < r@.len() ==> r@[i].0 != r@[j].0,
    {
        proof { use_type_invariant(self); }
        self.objects.as_slice()
    }

    /// Follows references through the store until a value that is not a
    /// reference, in at most 16 steps, the first of which looks at `obj`
    /// itself: a value reached after at most 15 references; `None` when the
    /// chain breaks or is longer.
    pub fn resolve<'a>(&'a self, obj: &'a CosObject) -> (r: Option<&'a CosObject>)
        ensures
            match resolve_spec(self@, obj@, 15) {
                Some(v) => r is Some && r->Some_0@ == v,
                None => r is None,
            },
    {
        let mut cur = obj;
        let mut n: usize = 0;
        while n < 16
            invariant
                n <= 16,
                n <= 15 ==> resolve_spec(self@, cur@, (15 - n) as nat) == resolve_spec(self@, obj@, 15),
                n == 16 ==> resolve_spec(self@, obj@, 15) is None,
            decreases 16 - n,
        {
            match cur {
                CosObject::Reference(id) => {
                    match self.get(id) {
                        Some(next) => {
                            cur = next;
                        }
                        None => return None,
                    }
                }
                other => return Some(other),
            }
            n += 1;
        }
        None
    }
}

// ---------------------------------------------------------------------------
// Decoded-stream cache
// ---------------------------------------------------------------------------

/// The bytes cached for `id`.
pub open spec fn cache_find(s: Seq<(ObjectId, Seq<u8>)>, id: ObjectId) -> Option<Seq<u8>>
    decreases s.len(),
{
    if s.len() == 0 {
        None
    } else if s.last().0 == id {
        Some(s.last().1)
    } else {
        cache_find(s.drop_last(), id)
    }
}

/// Decoded stream data, decoded on first request and kept until evicted.
#[derive(Debug)]
pub struct StreamCache {
    cache: Vec<(ObjectId, Arc<Vec<u8>>)>,
}

/// A second handle on shared bytes.
#[verifier::external_body]
fn share(a: &Arc<Vec<u8>>) -> (r: Arc<Vec<u8>>)
    ensures r@ == a@,
{
    Arc::clone(a)
}

/// Cached pairs seen as byte sequences.
pub open spec fn arc_view(s: Seq<(ObjectId, Arc<Vec<u8>>)>) -> Seq<(ObjectId, Seq<u8>)> {
    Seq::new(s.len(), |i: int| (s[i].0, s[i].1@))
}

impl View for StreamCache {
    type V = Seq<(ObjectId, Seq<u8>)>;

    closed spec fn view(&self) -> Seq<(ObjectId, Seq<u8>)> {
        arc_view(self.cache@)
    }
}

impl StreamCache {
    /// An empty cache.
    pub fn new() -> (r: Self)
        ensures r@.len() == 0,
    {
        StreamCache { cache: Vec::new() }
    }

    fn position(&self, id: &ObjectId) -> (r: Option<usize>)
        ensures
            match r {
                Some(p) => p < self@.len() && cache_find(self@, *id) == Some(self@[p as int].1),
                None => cache_find(self@, *id) is None,
            },
    {
        let mut i = self.cache.len();
        proof { assert(self@.subrange(0, i as int) =~= self@); }
        while i > 0
            invariant i <= self.cache@.len(), self@.len() == self.cache@.len(),
                cache_find(self@, *id) == cache_find(self@.subrange(0, i as int), *id),
            decreases i,
        {
            proof {
                assert(self@.subrange(0, i as int).drop_last() =~= self@.subrange(0, i - 1));
            }
            if self.cache[i - 1].0.same(id) {
                return Some(i - 1);
            }
            i -= 1;
        }
        None
    }

    /// The decoded bytes of stream `id`, decoding and caching them on the
    /// first request. `None` when `id` is not a stream or does not decode.
    pub fn get_decoded(&mut self, id: &ObjectId, store: &ObjectStore) -> (r: Option<Arc<Vec<u8>>>)
        ensures
            match cache_find(old(self)@, *id) {
                Some(b) => r is Some && r->Some_0@ == b && final(self)@ == old(self)@,
                None => match store_find(store@, *id) {
                    Some(CosValue::Stream(d, data)) => match decode_spec(data, dict_lookup(d, lit("Filter"))) {
                        crate::io::Decoded::Out(o) => r is Some && r->Some_0@ == o
                            && final(self)@ == old(self)@.push((*id, o)),
                        _ => r is None && final(self)@ == old(self)@,
                    },
                    _ => r is None && final(self)@ == old(self)@,
                },
            },
            r is None ==> final(self)@ == old(self)@,
    {
        if let Some(p) = self.position(id) {
            return Some(share(&self.cache[p].1));
        }
        let stream = match store.get(id) {
            Some(CosObject::Stream(s)) => s,
            _ => return None,
        };
        let filter = stream.dictionary.get(&CosName::named("Filter"));
        let decoded = match decode_stream(stream.data.as_slice(), filter) {
            Ok(v) => v,
            Err(_) => return None,
        };
        let arc = Arc::new(decoded);
        let ghost before = self@;
        self.cache.push((*id, share(&arc)));
        proof {
            assert(self@ =~= before.push((*id, arc@)));
        }
        Some(arc)
    }

    /// The cached bytes of `id`, without decoding.
    pub fn peek(&self, id: &ObjectId) -> (r: Option<Arc<Vec<u8>>>)
        ensures
            match cache_find(self@, *id) {
                Some(b) => r is Some && r->Some_0@ == b,
                None => r is None,
            },
    {
        match self.position(id) {
            Some(p) => Some(share(&self.cache[p].1)),
            None => None,
        }
    }

    /// Drops the cached bytes of `id`.
    pub fn evict(&mut self, id: &ObjectId)
        ensures cache_find(final(self)@, *id) is None,
            forall|q: ObjectId| q != *id ==> #[trigger] cache_find(final(self)@, q) == cache_find(old(self)@, q),
    {
        let mut kept: Vec<(ObjectId, Arc<Vec<u8>>)> = Vec::new();
        let ghost s0 = self@;
        let mut i: usize = 0;
        while i < self.cache.len()
            invariant
                i <= self.cache@.len(),
                s0 == self@,
                self@.len() == self.cache@.len(),
                cache_find(arc_view(kept@), *id) is None,
                forall|q: ObjectId| q != *id ==> #[trigger] cache_find(arc_view(kept@), q)
                    == cache_find(s0.subrange(0, i as int), q),
            decreases self.cache.len() - i,
        {
            let ghost kv = arc_view(kept@);
            if !self.cache[i].0.same(id) {
                let e = (self.cache[i].0, share(&self.cache[i].1));
                kept.push(e);
                proof {
                    let kv2 = arc_view(kept@);
                    assert(kv2.drop_last() =~= kv);
                    assert(kv2.last() == s0[i as int]);
                    assert(s0.subrange(0, i + 1).drop_last() =~= s0.subrange(0, i as int));
                    assert(s0.subrange(0, i + 1).last() == s0[i as int]);
                    assert forall|q: ObjectId| q != *id implies #[trigger] cache_find(kv2, q)
                        == cache_find(s0.subrange(0, i + 1), q) by {
                        assert(cache_find(kv, q) == cache_find(s0.subrange(0, i as int), q));
                        if kv2.last().0 != q {
                            assert(cache_find(kv2, q) == cache_find(kv2.drop_last(), q));
                            assert(cache_find(s0.subrange(0, i + 1), q) == cache_find(s0.subrange(0, i + 1).drop_last(), q));
                        }
                    }
                    assert(cache_find(kv2, *id) == cache_find(kv2.drop_last(), *id));
                }
            } else {
                proof {
                    assert(s0.subrange(0, i + 1).drop_last() =~= s0.subrange(0, i as int));
                    assert(s0.subrange(0, i + 1).last() == s0[i as int]);
                    assert forall|q: ObjectId| q != *id implies #[trigger] cache_find(kv, q)
                        == cache_find(s0.subrange(0, i + 1), q) by {}
                }
            }
            i += 1;
        }
        proof { assert(s0.subrange(0, s0.len() as int) =~= s0); }
        self.cache = kept;
    }

    /// Drops every cached entry.
    pub fn clear(&mut self)
        ensures final(self)@.len() == 0,
    {
        self.cache = Vec::new();
    }

    /// Number of cached entries.
    pub fn cached_count(&self) -> (r: usize)
        ensures r == self@.len(),
    {
        self.cache.len()
    }
}


// ---------------------------------------------------------------------------
// Document
// ---------------------------------------------------------------------------

/// `b` holds `%PDF-` at `i`.
pub open spec fn header_at(b: Seq<u8>, i: int) -> bool {
    0 <= i && i + 5 <= b.len() && b.subrange(i, i + 5) == lit("%PDF-")
}

/// The `%PDF-` header occurs within the first 1024 bytes.
pub open spec fn has_pdf_header(b: Seq<u8>) -> bool {
    let end = if b.len() < 1024 { b.len() as int } else { 1024 };
    b.len() >= 5 && exists|i: int| 0 <= i && i + 5 <= end && #[trigger] header_at(b, i)
}

proof fn lemma_header_len()
    ensures lit("%PDF-").len() == 5,
{
    reveal_strlit("%PDF-");
    vstd::string::is_ascii_spec_bytes("%PDF-");
}

/// `true` when `%PDF-` occurs within the first 1024 bytes.
pub fn looks_like_pdf_header(bytes: &[u8]) -> (r: bool)
    ensures r == has_pdf_header(bytes@),
{
    proof { lemma_header_len(); }
    if bytes.len() < 5 {
        return false;
    }
    let end: usize = if bytes.len() < 1024 { bytes.len() } else { 1024 };
    let mut i: usize = 0;
    while end >= 5 && i <= end - 5
        invariant
            5 <= bytes@.len(),
            end <= bytes@.len(),
            end == (if bytes@.len() < 1024 { bytes@.len() as int } else { 1024 }),
            lit("%PDF-").len() == 5,
            forall|j: int| 0 <= j < i ==> !#[trigger] header_at(bytes@, j),
        decreases end - i,
    {
        if starts_with_at(bytes, i, "%PDF-".as_bytes()) {
            proof { assert(header_at(bytes@, i as int)); }
            return true;
        }
        i += 1;
    }
    proof {
        assert forall|j: int| 0 <= j && j + 5 <= end implies !#[trigger] header_at(bytes@, j) by {}
    }
    false
}

/// Warning of a failed cross-reference load.
fn xref_failed_warning(e: &ParseError) -> (r: String)
    ensures r@ == "xref/startxref parse failed (parse error at byte "@ + digits_text(e.offset as nat) + ": "@
        + e.message@ + ") — falling back to linear object scan"@,
{
    let mut m = String::new();
    push_str(&mut m, "xref/startxref parse failed (parse error at byte ");
    push_digits(&mut m, e.offset as u64);
    push_str(&mut m, ": ");
    push_str(&mut m, e.message.as_str());
    push_str(&mut m, ") — falling back to linear object scan");
    m
}

/// Warning of a skipped object.
fn skipped_warning(id: ObjectId, e: &ParseError) -> (r: String)
    ensures r@ == "skipped object "@ + digits_text(id.object_number as nat) + " "@ + digits_text(id.generation as nat)
        + ": parse error at byte "@ + digits_text(e.offset as nat) + ": "@ + e.message@,
{
    let mut m = String::new();
    push_str(&mut m, "skipped object ");
    push_digits(&mut m, id.object_number as u64);
    push_str(&mut m, " ");
    push_digits(&mut m, id.generation as u64);
    push_str(&mut m, ": parse error at byte ");
    push_digits(&mut m, e.offset as u64);
    push_str(&mut m, ": ");
    push_str(&mut m, e.message.as_str());
    m
}

/// Warning that reports a linear scan.
fn scan_warning(found: usize) -> (r: String)
    ensures r@ == "linear scan found "@ + digits_text(found as nat) + " objects"@,
{
    let mut m = String::new();
    push_str(&mut m, "linear scan found ");
    push_digits(&mut m, found as u64);
    push_str(&mut m, " objects");
    m
}

/// The stream's declared `/Length`, as a byte count (0 when absent).
fn declared_length(dict: &CosDictionary) -> (r: usize)
    ensures
        r == (match dict_lookup(dict@, lit("Length")) {
            Some(CosValue::Integer(n)) => n as usize,
            _ => 0usize,
        }),
{
    match dict.get(&CosName::named("Length")) {
        Some(CosObject::Integer(n)) => *n as usize,
        _ => 0,
    }
}

/// A stream dictionary's `/Length` as a byte count (0 when absent).
pub open spec fn declared_len(d: Seq<(Seq<u8>, CosValue)>) -> int {
    match dict_lookup(d, lit("Length")) {
        Some(CosValue::Integer(n)) => (n as usize) as int,
        _ => 0,
    }
}

/// `v`, and when it is a stream with no data and a non-zero `/Length`,
/// with the body that follows the first `stream` keyword of `slice` as its
/// data (when the slice holds that many bytes).
pub open spec fn backfilled(v: CosValue, slice: Seq<u8>) -> CosValue {
    match v {
        CosValue::Stream(d, data) => if data.len() != 0 || declared_len(d) == 0 {
            v
        } else {
            match first_stream_kw(slice) {
                None => v,
                Some(kw) => match stream_body(slice, kw + 6, declared_len(d)) {
                    Some(b) => CosValue::Stream(d, b),
                    None => v,
                },
            }
        },
        _ => v,
    }
}

/// When `obj` is a stream whose data the parser left empty, reads the data
/// that follows the first `stream` keyword of `slice`, using `/Length`.
pub fn backfill_stream_data(obj: CosObject, slice: &[u8]) -> (r: CosObject)
    ensures
        r@ == backfilled(obj@, slice@),
        !(obj@ is Stream) ==> r@ == obj@,
        obj@ matches CosValue::Stream(d, data) ==> (r@ matches CosValue::Stream(d2, data2) && d2 == d
            && (data.len() != 0 ==> data2 == data)),
{
    match obj {
        CosObject::Stream(mut stream) => {
            if stream.data.len() != 0 {
                return CosObject::Stream(stream);
            }
            let length = declared_length(&stream.dictionary);
            if length == 0 {
                return CosObject::Stream(stream);
            }
            match find_stream_keyword(slice) {
                None => CosObject::Stream(stream),
                Some(kw) => {
                    assert(kw + 6 <= slice.len());
                    match read_stream_data(slice, kw + 6, length) {
                        Ok(data) => {
                            stream.data = data;
                            CosObject::Stream(stream)
                        }
                        Err(_) => CosObject::Stream(stream),
                    }
                }
            }
        }
        other => other,
    }
}

/// Every stored object has an entry in the table.
pub open spec fn stored_ids_recorded(store: Seq<(ObjectId, CosValue)>, table: Seq<(ObjectId, XRefEntry)>) -> bool {
    forall|q: ObjectId| #[trigger] store_find(store, q) is Some ==> xref_find(table, q) is Some
}

proof fn lemma_recorded(table: Seq<(ObjectId, XRefEntry)>, k: int)
    requires 0 <= k < table.len(),
    ensures xref_find(table, table[k].0) is Some,
{
    crate::parser::xref::lemma_xref_find_from(table, table[k].0, 0);
}

/// The object `id` held in object stream `sn` of `store`: the stream
/// decoded, its preamble read, the object's bytes parsed; `None` when any
/// step fails.
pub open spec fn compressed_spec(store: Seq<(ObjectId, CosValue)>, id: ObjectId, sn: u32) -> Option<CosValue> {
    match store_find(store, ObjectId { object_number: sn, generation: 0 }) {
        Some(CosValue::Stream(d, data)) => match decode_spec(data, dict_lookup(d, lit("Filter"))) {
            crate::io::Decoded::Out(dec) => match (dict_u32(d, lit("N")), dict_u32(d, lit("First"))) {
                (Some(n), Some(f)) => match objstm_entries(dec, f, n) {
                    Some(e) => match objstm_bytes(e, f, dec, id.object_number) {
                        Some(b) => match parse_value(b, 0) {
                            ParseOut::Obj(v, _) => Some(v),
                            _ => None,
                        },
                        None => None,
                    },
                    None => None,
                },
                _ => None,
            },
            _ => None,
        },
        _ => None,
    }
}

/// A loaded document.
#[derive(Debug)]
pub struct Document {
    /// Length of the source in bytes.
    pub source_len: usize,
    /// The merged cross-reference table.
    pub xref: XRefTable,
    /// The loaded indirect objects.
    pub objects: ObjectStore,
    /// The source bytes, shared.
    pub source_bytes: Option<Arc<Vec<u8>>>,
    /// Decoded streams.
    pub stream_cache: StreamCache,
    /// The last object number handed out by `allocate_object_id`.
    pub last_allocated: u32,
}

/// What loading the object at an in-use offset gives.
pub enum Loaded {
    /// No object definition there (or the offset is 0 or past the end).
    Nothing,
    /// The object defined there.
    Obj(CosValue),
    /// The definition does not parse: the error's offset.
    Failed(int),
}

/// Loading the object defined at `offset`: parsed from the bytes there,
/// with its stream data read when the parser left it empty.
#[verifier::opaque]
pub open spec fn load_spec(bytes: Seq<u8>, offset: u64) -> Loaded {
    if offset == 0 || offset >= bytes.len() {
        Loaded::Nothing
    } else {
        let slice = bytes.subrange(offset as int, bytes.len() as int);
        match parse_indirect(slice, 0) {
            IndirectOut::Bad(o) => Loaded::Failed(o),
            IndirectOut::NoDef(_) => Loaded::Nothing,
            IndirectOut::Def(_, _, v, _) => Loaded::Obj(backfilled(v, slice)),
        }
    }
}

/// Parses the object an in-use entry at `offset` points to (see `load_spec`).
fn load_at(bytes: &[u8], offset: u64) -> (r: Result<Option<CosObject>, ParseError>)
    ensures
        match load_spec(bytes@, offset) {
            Loaded::Nothing => r is Ok && r->Ok_0 is None,
            Loaded::Obj(v) => r is Ok && r->Ok_0 is Some && r->Ok_0->Some_0@ == v,
            Loaded::Failed(o) => r is Err && r->Err_0.offset == o,
        },
{
    proof { reveal(load_spec); }
    if offset == 0 || offset >= bytes.len() as u64 {
        return Ok(None);
    }
    let off = offset as usize;
    let slice = &bytes[off..bytes.len()];
    let mut p = Parser::new(slice);
    match p.parse_indirect_object() {
        Ok(Some((_pid, obj))) => Ok(Some(backfill_stream_data(obj, slice))),
        Ok(None) => Ok(None),
        Err(e) => Err(e),
    }
}

/// `n`, or `usize::MAX` when it is larger.
pub open spec fn min_usize(n: nat) -> int {
    if n <= usize::MAX { n as int } else { usize::MAX as int }
}

/// What the store holds for `q` once the in-use entries among the first
/// `k` of `es` are loaded into `st`: the object the last of them with id
/// `q` that loads gives, else what `st` held.
pub open spec fn in_use_find(bytes: Seq<u8>, es: Seq<(ObjectId, XRefEntry)>, k: int, st: Seq<(ObjectId, CosValue)>, q: ObjectId)
    -> Option<CosValue>
    decreases k,
{
    if k <= 0 {
        store_find(st, q)
    } else {
        match es[k - 1].1 {
            XRefEntry::InUse { offset, .. } => match load_spec(bytes, offset) {
                Loaded::Obj(v) => if es[k - 1].0 == q { Some(v) } else { in_use_find(bytes, es, k - 1, st, q) },
                _ => in_use_find(bytes, es, k - 1, st, q),
            },
            _ => in_use_find(bytes, es, k - 1, st, q),
        }
    }
}

/// How many of the first `k` entries of `es` are in use and load nothing
/// (`failed` false) or fail to parse (`failed` true).
pub open spec fn in_use_misses(bytes: Seq<u8>, es: Seq<(ObjectId, XRefEntry)>, k: int, failed: bool) -> nat
    decreases k,
{
    if k <= 0 {
        0
    } else {
        in_use_misses(bytes, es, k - 1, failed) + match es[k - 1].1 {
            XRefEntry::InUse { offset, .. } => match load_spec(bytes, offset) {
                Loaded::Nothing => if failed { 0nat } else { 1nat },
                Loaded::Failed(_) => if failed { 1nat } else { 0nat },
                Loaded::Obj(_) => 0nat,
            },
            _ => 0nat,
        }
    }
}

/// Loads every in-use object the table records (see `in_use_find`);
/// returns how many entries were skipped, at most `usize::MAX`, and adds a
/// warning for each object that failed to parse.
fn load_in_use(bytes: &[u8], table: &XRefTable, objects: &mut ObjectStore, warnings: &mut Vec<String>) -> (r: usize)
    requires stored_ids_recorded(old(objects)@, table@),
    ensures
        stored_ids_recorded(final(objects)@, table@),
        forall|q: ObjectId| #[trigger] store_find(final(objects)@, q)
            == in_use_find(bytes@, table@, table@.len() as int, old(objects)@, q),
        r as int == min_usize(in_use_misses(bytes@, table@, table@.len() as int, false)
            + in_use_misses(bytes@, table@, table@.len() as int, true)),
        final(warnings)@.len() == old(warnings)@.len() + in_use_misses(bytes@, table@, table@.len() as int, true),
        final(warnings)@.subrange(0, old(warnings)@.len() as int) == old(warnings)@,
{
    let entries = table.entries();
    let mut skipped: usize = 0;
    let mut i: usize = 0;
    while i < entries.len()
        invariant
            i <= entries@.len(),
            entries@ == table@,
            stored_ids_recorded(objects@, table@),
            forall|q: ObjectId| #[trigger] store_find(objects@, q)
                == in_use_find(bytes@, table@, i as int, old(objects)@, q),
            skipped as int == min_usize(in_use_misses(bytes@, table@, i as int, false)
                + in_use_misses(bytes@, table@, i as int, true)),
            warnings@.len() == old(warnings)@.len() + in_use_misses(bytes@, table@, i as int, true),
            warnings@.subrange(0, old(warnings)@.len() as int) == old(warnings)@,
        decreases entries.len() - i,
    {
        let (id, entry) = entries[i];
        proof {
            assert(entries@[i as int] == (id, entry));
            assert forall|q: ObjectId| #[trigger] in_use_find(bytes@, table@, i + 1, old(objects)@, q)
                == (match entry {
                    XRefEntry::InUse { offset, .. } => match load_spec(bytes@, offset) {
                        Loaded::Obj(v) => if id == q { Some(v) } else { in_use_find(bytes@, table@, i as int, old(objects)@, q) },
                        _ => in_use_find(bytes@, table@, i as int, old(objects)@, q),
                    },
                    _ => in_use_find(bytes@, table@, i as int, old(objects)@, q),
                }) by {}
        }
        let ghost w0 = warnings@;
        if let XRefEntry::InUse { offset, .. } = entry {
            match load_at(bytes, offset) {
                Ok(Some(obj)) => {
                    proof { lemma_recorded(table@, i as int); }
                    objects.insert(id, obj);
                }
                Ok(None) => {
                    skipped = if skipped < usize::MAX { skipped + 1 } else { skipped };
                }
                Err(e) => {
                    skipped = if skipped < usize::MAX { skipped + 1 } else { skipped };
                    warnings.push(skipped_warning(id, &e));
                    proof { assert(warnings@.subrange(0, old(warnings)@.len() as int) =~= w0.subrange(0, old(warnings)@.len() as int)); }
                }
            }
        }
        i += 1;
    }
    skipped
}

/// Expands objects stored in object streams that are not loaded yet.
fn load_compressed(table: &XRefTable, objects: &mut ObjectStore)
    requires stored_ids_recorded(old(objects)@, table@),
    ensures
        stored_ids_recorded(final(objects)@, table@),
        forall|q: ObjectId| #[trigger] store_find(old(objects)@, q) is Some
            ==> store_find(final(objects)@, q) == store_find(old(objects)@, q),
        forall|q: ObjectId| #[trigger] store_find(final(objects)@, q) is Some && store_find(old(objects)@, q) is None
            ==> exists|k: int| 0 <= k < table@.len() && (#[trigger] table@[k]).0 == q && table@[k].1 is Compressed,
{
    let entries = table.entries();
    let mut streams: Vec<(u32, ObjectStream)> = Vec::new();
    let mut i: usize = 0;
    while i < entries.len()
        invariant
            i <= entries@.len(),
            entries@ == table@,
            stored_ids_recorded(objects@, table@),
            forall|q: ObjectId| #[trigger] store_find(old(objects)@, q) is Some
                ==> store_find(objects@, q) == store_find(old(objects)@, q),
            forall|q: ObjectId| #[trigger] store_find(objects@, q) is Some && store_find(old(objects)@, q) is None
                ==> exists|k: int| 0 <= k < table@.len() && (#[trigger] table@[k]).0 == q && table@[k].1 is Compressed,
        decreases entries.len() - i,
    {
        let (id, entry) = entries[i];
        proof { assert(table@[i as int] == (id, entry)); }
        if let XRefEntry::Compressed { stream_object_number, .. } = entry {
            if objects.get(&id).is_none() {
                let mut found: Option<usize> = None;
                let mut k: usize = 0;
                while k < streams.len()
                    invariant k <= streams@.len(), found is Some ==> found->Some_0 < streams@.len(),
                    decreases streams.len() - k,
                {
                    if found.is_none() && streams[k].0 == stream_object_number {
                        found = Some(k);
                    }
                    k += 1;
                }
                if found.is_none() {
                    let sid = ObjectId::new(stream_object_number, 0);
                    let decoded = match objects.get(&sid) {
                        Some(CosObject::Stream(s)) => {
                            let filter = s.dictionary.get(&CosName::named("Filter"));
                            let d = match decode_stream(s.data.as_slice(), filter) {
                                Ok(v) => v,
                                Err(_) => clone_bytes(s.data.as_slice()),
                            };
                            match ObjectStream::from_stream(&s.dictionary, d) {
                                Some(os) => Some(os),
                                None => None,
                            }
                        }
                        _ => None,
                    };
                    if let Some(os) = decoded {
                        streams.push((stream_object_number, os));
                        found = Some(streams.len() - 1);
                    }
                }
                if let Some(k) = found {
                    if let Some(obj_bytes) = streams[k].1.get_object(id.object_number) {
                        let mut p = Parser::new(obj_bytes);
                        if let Ok(Some(obj)) = p.parse_object() {
                            proof { lemma_recorded(table@, i as int); }
                            objects.insert(id, obj);
                        }
                    }
                }
            }
        }
        i += 1;
    }
}

impl Document {
    /// The source bytes the document keeps, if any.
    pub open spec fn source(&self) -> Option<Seq<u8>> {
        match self.source_bytes {
            Some(a) => Some(a@),
            None => None,
        }
    }

    /// The decoded streams cached so far.
    pub open spec fn cache(&self) -> Seq<(ObjectId, Seq<u8>)> {
        self.stream_cache@
    }

    /// An empty document: no objects, an empty table and trailer.
    pub fn empty() -> (r: Self)
        ensures
            r.source_len == 0, r.source() is None, r.xref@.len() == 0, r.xref.wf(),
            r.xref.trailer@.len() == 0, r.xref.pdf_version is None, r.objects@.len() == 0, r.cache().len() == 0,
            r.last_allocated == 0,
    {
        Document {
            source_len: 0,
            xref: XRefTable::new(),
            objects: ObjectStore::new(),
            source_bytes: None,
            stream_cache: StreamCache::new(),
            last_allocated: 0,
        }
    }

    /// Loads a document from its bytes: checks the `%PDF-` header, loads the
    /// cross-reference table (following `Prev` chains), then loads every
    /// in-use object and the objects stored in object streams. Objects that
    /// fail to parse are left out.
    pub fn load_from_bytes(bytes: &[u8]) -> (r: Result<Self, PdfError>)
        ensures
            !has_pdf_header(bytes@) ==> (r matches Err(PdfError::Parse { offset: o, .. }) && o == Some(0u64)),
            has_pdf_header(bytes@) && startxref_spec(bytes@, 1024) is None ==> r is Err,
            has_pdf_header(bytes@) ==> match xref_load_spec(bytes@) {
                None => r is Err,
                Some(t) => r matches Ok(d) && d.xref@ == t.0 && d.xref.trailer@ == t.1
                    && (forall|q: ObjectId| #[trigger] in_use_find(bytes@, t.0, t.0.len() as int, Seq::empty(), q) is Some
                        ==> store_find(d.objects@, q) == in_use_find(bytes@, t.0, t.0.len() as int, Seq::empty(), q))
                    && (forall|q: ObjectId| #[trigger] store_find(d.objects@, q) is Some
                        && in_use_find(bytes@, t.0, t.0.len() as int, Seq::empty(), q) is None
                        ==> exists|k: int| 0 <= k < t.0.len() && (#[trigger] t.0[k]).0 == q && t.0[k].1 is Compressed),
            },
            r matches Ok(d) ==> {
                &&& d.source_len == bytes@.len()
                &&& d.source() == Some(bytes@)
                &&& d.xref.wf()
                &&& d.cache().len() == 0
                &&& stored_ids_recorded(d.objects@, d.xref@)
            },
    {
        if !looks_like_pdf_header(bytes) {
            return Err(PdfError::parse("missing %PDF- header within first 1024 bytes", Some(0)));
        }
        let xref = match load_xref(bytes) {
            Ok(x) => x,
            Err(e) => return Err(PdfError::from_parse_error(e)),
        };
        let mut objects = ObjectStore::new();
        let mut warnings: Vec<String> = Vec::new();
        load_in_use(bytes, &xref, &mut objects, &mut warnings);
        load_compressed(&xref, &mut objects);
        Ok(Document {
            source_len: bytes.len(),
            xref,
            objects,
            source_bytes: Some(Arc::new(clone_bytes(bytes))),
            stream_cache: StreamCache::new(),
            last_allocated: 0,
        })
    }

    /// Loads a document, recovering from what it can: a missing header is a
    /// warning, a broken cross-reference table falls back to a linear scan
    /// for `N G obj` headers (two warnings), and objects that fail to parse
    /// are skipped (one warning each). Only the in-use objects are loaded.
    pub fn load_lenient(bytes: &[u8]) -> (r: (Self, RecoveryReport))
        ensures
            r.0.source_len == bytes@.len(),
            r.0.source() == Some(bytes@),
            r.0.xref.wf(),
            stored_ids_recorded(r.0.objects@, r.0.xref@),
            r.1.xref_recovered == (xref_load_spec(bytes@) is None),
            xref_load_spec(bytes@) matches Some(t) ==> r.0.xref@ == t.0 && r.0.xref.trailer@ == t.1,
            xref_load_spec(bytes@) is None ==> (r.0.xref@, r.0.xref.trailer@) == scan_from(bytes@, 0, (Seq::empty(), Seq::empty())),
            forall|q: ObjectId| #[trigger] store_find(r.0.objects@, q)
                == in_use_find(bytes@, r.0.xref@, r.0.xref@.len() as int, Seq::empty(), q),
            r.1.objects_skipped as int == min_usize(in_use_misses(bytes@, r.0.xref@, r.0.xref@.len() as int, false)
                + in_use_misses(bytes@, r.0.xref@, r.0.xref@.len() as int, true)),
            r.1.warnings@.len() == (if has_pdf_header(bytes@) { 0int } else { 1int })
                + (if xref_load_spec(bytes@) is None { 2int } else { 0int })
                + in_use_misses(bytes@, r.0.xref@, r.0.xref@.len() as int, true),
            r.1.is_clean_spec() ==> has_pdf_header(bytes@),
    {
        let mut report = RecoveryReport::new();
        if !looks_like_pdf_header(bytes) {
            report.warnings.push("missing or non-standard %PDF- header — attempting recovery".to_owned());
        }
        let xref = match load_xref(bytes) {
            Ok(x) => x,
            Err(e) => {
                report.warnings.push(xref_failed_warning(&e));
                report.xref_recovered = true;
                linear_scan_xref(bytes, &mut report)
            }
        };
        let mut objects = ObjectStore::new();
        let skipped = load_in_use(bytes, &xref, &mut objects, &mut report.warnings);
        if skipped > 0 {
            report.objects_skipped = skipped;
        }
        let doc = Document {
            source_len: bytes.len(),
            xref,
            objects,
            source_bytes: Some(Arc::new(clone_bytes(bytes))),
            stream_cache: StreamCache::new(),
            last_allocated: 0,
        };
        (doc, report)
    }

    /// Length of the source in bytes.
    pub fn source_len(&self) -> (r: usize)
        ensures r == self.source_len,
    {
        self.source_len
    }

    /// A shared handle on the source bytes, if the document keeps them.
    pub fn source_bytes(&self) -> (r: Option<Arc<Vec<u8>>>)
        ensures
            match self.source() {
                Some(b) => r is Some && r->Some_0@ == b,
                None => r is None,
            },
    {
        match &self.source_bytes {
            Some(a) => Some(share(a)),
            None => None,
        }
    }

    /// The stored object `id`, without loading.
    pub fn get_object_ref(&self, id: ObjectId) -> (r: Option<&CosObject>)
        ensures
            match store_find(self.objects@, id) {
                Some(v) => r is Some && r->Some_0@ == v,
                None => r is None,
            },
    {
        self.objects.get(&id)
    }

    /// Stores `obj` under `id`.
    pub fn insert_object(&mut self, id: ObjectId, obj: CosObject)
        ensures
            forall|q: ObjectId| #[trigger] store_find(final(self).objects@, q)
                == (if q == id { Some(obj@) } else { store_find(old(self).objects@, q) }),
            final(self).xref@ == old(self).xref@,
            final(self).xref.trailer@ == old(self).xref.trailer@,
            final(self).last_allocated == old(self).last_allocated,
    {
        self.objects.insert(id, obj);
    }

    /// Removes and returns the stored object `id`.
    pub fn take_object(&mut self, id: ObjectId) -> (r: Option<CosObject>)
        ensures
            match store_find(old(self).objects@, id) {
                Some(v) => r is Some && r->Some_0@ == v,
                None => r is None,
            },
            store_find(final(self).objects@, id) is None,
            forall|q: ObjectId| q != id ==> #[trigger] store_find(final(self).objects@, q) == store_find(old(self).objects@, q),
            final(self).last_allocated == old(self).last_allocated,
            final(self).xref@ == old(self).xref@,
            final(self).xref.trailer@ == old(self).xref.trailer@,
    {
        self.objects.take(&id)
    }

    /// A fresh object id: a number above every stored or recorded object
    /// and every id handed out before, generation 0.
    pub fn allocate_object_id(&mut self) -> (r: ObjectId)
        ensures
            r.generation == 0,
            forall|q: ObjectId| #[trigger] store_find(old(self).objects@, q) is Some && q.object_number < u32::MAX
                ==> q.object_number < r.object_number,
            old(self).last_allocated < u32::MAX ==> old(self).last_allocated < r.object_number,
            old(self).objects@.len() == 0 && old(self).xref@.len() == 0 && old(self).last_allocated < u32::MAX
                ==> r.object_number == old(self).last_allocated + 1,
            ids_at_most(*old(self), old(self).last_allocated as int) && old(self).last_allocated < u32::MAX
                ==> r.object_number == old(self).last_allocated + 1,
            final(self).last_allocated == r.object_number,
            old(self).last_allocated <= r.object_number,
            final(self).objects@ == old(self).objects@,
            final(self).xref@ == old(self).xref@,
            final(self).xref.trailer@ == old(self).xref.trailer@,
    {
        let mut max: u32 = self.last_allocated;
        let entries = self.objects.entries();
        let mut i: usize = 0;
        while i < entries.len()
            invariant i <= entries@.len(), store_view(entries@) == self.objects@,
                self.last_allocated <= max,
                entries@.len() == 0 ==> max == self.last_allocated,
                ids_at_most(*self, self.last_allocated as int) ==> max == self.last_allocated,
                forall|a: int, b: int| 0 <= a < b < entries@.len() ==> entries@[a].0 != entries@[b].0,
                forall|k: int| 0 <= k < i ==> entries@[k].0.object_number <= max,
            decreases entries.len() - i,
        {
            proof {
                lemma_store_find_distinct(store_view(entries@), i as int);
                assert(store_view(entries@)[i as int].0 == entries@[i as int].0);
            }
            if entries[i].0.object_number > max {
                max = entries[i].0.object_number;
            }
            i += 1;
        }
        let xs = self.xref.entries();
        let mut j: usize = 0;
        while j < xs.len()
            invariant forall|k: int| 0 <= k < entries@.len() ==> entries@[k].0.object_number <= max,
                self.last_allocated <= max,
                entries@.len() == 0 && xs@.len() == 0 ==> max == self.last_allocated,
                ids_at_most(*self, self.last_allocated as int) ==> max == self.last_allocated,
                xs@ == self.xref@,
            decreases xs.len() - j,
        {
            if xs[j].0.object_number > max {
                max = xs[j].0.object_number;
            }
            j += 1;
        }
        let n = if max < u32::MAX { max + 1 } else { max };
        proof {
            assert forall|q: ObjectId| #[trigger] store_find(self.objects@, q) is Some && q.object_number < u32::MAX
                implies q.object_number < n by {
                lemma_store_find_from(self.objects@, q, 0);
                let k = choose|k: int| 0 <= k < self.objects@.len() && self.objects@[k].0 == q;
                assert(self.objects@[k].0 == entries@[k].0);
            }
        }
        self.last_allocated = n;
        ObjectId::new(n, 0)
    }

    /// The object `id`: from the store, or else parsed from the source bytes
    /// at the offset the table records (or from its object stream) and then
    /// stored.
    pub fn get_object(&mut self, id: &ObjectId) -> (r: Option<&CosObject>)
        ensures
            store_find(old(self).objects@, *id) matches Some(v) ==> (r is Some && r->Some_0@ == v
                && final(self).objects@ == old(self).objects@),
            r is Some ==> store_find(final(self).objects@, *id) == Some(r->Some_0@),
            forall|q: ObjectId| q != *id ==> #[trigger] store_find(final(self).objects@, q) == store_find(old(self).objects@, q),
            xref_find(old(self).xref@, *id) is None && store_find(old(self).objects@, *id) is None ==> r is None,
            store_find(old(self).objects@, *id) is None ==> match (xref_find(old(self).xref@, *id), old(self).source()) {
                (Some(XRefEntry::InUse { offset, .. }), Some(b)) => match load_spec(b, offset) {
                    Loaded::Obj(v) => r is Some && r->Some_0@ == v && store_find(final(self).objects@, *id) == Some(v),
                    _ => r is None && final(self).objects@ == old(self).objects@,
                },
                (Some(XRefEntry::Compressed { stream_object_number: sn, .. }), Some(_)) => match compressed_spec(old(self).objects@, *id, sn) {
                    Some(v) => r is Some && r->Some_0@ == v && store_find(final(self).objects@, *id) == Some(v),
                    None => r is None && final(self).objects@ == old(self).objects@,
                },
                _ => r is None && final(self).objects@ == old(self).objects@,
            },
            final(self).xref@ == old(self).xref@,
    {
        if self.objects.get(id).is_some() {
            return self.objects.get(id);
        }
        let entry = match self.xref.get(id) {
            Some(e) => *e,
            None => return None,
        };
        let raw = match &self.source_bytes {
            Some(a) => share(a),
            None => return None,
        };
        match entry {
            XRefEntry::InUse { offset, .. } => {
                if let Ok(Some(obj)) = load_at(raw.as_slice(), offset) {
                    self.objects.insert(*id, obj);
                }
            }
            XRefEntry::Compressed { stream_object_number, .. } => {
                let sid = ObjectId::new(stream_object_number, 0);
                let parsed = match self.objects.get(&sid) {
                    Some(CosObject::Stream(s)) => {
                        let filter = s.dictionary.get(&CosName::named("Filter"));
                        match decode_stream(s.data.as_slice(), filter) {
                            Ok(decoded) => match ObjectStream::from_stream(&s.dictionary, decoded) {
                                Some(os) => match os.get_object(id.object_number) {
                                    Some(obj_bytes) => {
                                        let mut p = Parser::new(obj_bytes);
                                        match p.parse_object() {
                                            Ok(Some(obj)) => Some(obj),
                                            _ => None,
                                        }
                                    }
                                    None => None,
                                },
                                None => None,
                            },
                            Err(_) => None,
                        }
                    }
                    _ => None,
                };
                match parsed {
                    Some(obj) => self.objects.insert(*id, obj),
                    None => return None,
                }
            }
            XRefEntry::Free { .. } => return None,
        }
        self.objects.get(id)
    }

    /// The decoded bytes of stream `id`, decoded on the first request and
    /// cached until evicted.
    pub fn get_decoded_stream(&mut self, id: &ObjectId) -> (r: Option<Arc<Vec<u8>>>)
        ensures
            match cache_find(old(self).cache(), *id) {
                Some(b) => r is Some && r->Some_0@ == b && final(self).cache() == old(self).cache(),
                None => r is Some ==> final(self).cache() == old(self).cache().push((*id, r->Some_0@)),
            },
            r is None ==> final(self).cache() == old(self).cache(),
            match store_find(old(self).objects@, *id) {
                Some(CosValue::Stream(d, data)) => match decode_spec(data, dict_lookup(d, lit("Filter"))) {
                    crate::io::Decoded::Out(o) => cache_find(old(self).cache(), *id) is None ==> r is Some && r->Some_0@ == o,
                    _ => cache_find(old(self).cache(), *id) is None ==> r is None,
                },
                _ => cache_find(old(self).cache(), *id) is None ==> r is None,
            },
            final(self).objects@ == old(self).objects@,
    {
        self.stream_cache.get_decoded(id, &self.objects)
    }

    /// Drops the cached decoded bytes of `id`.
    pub fn evict_stream(&mut self, id: &ObjectId)
        ensures
            cache_find(final(self).cache(), *id) is None,
            forall|q: ObjectId| q != *id ==> #[trigger] cache_find(final(self).cache(), q) == cache_find(old(self).cache(), q),
            final(self).objects@ == old(self).objects@,
    {
        self.stream_cache.evict(id);
    }

    /// Number of cached decoded streams.
    pub fn cached_stream_count(&self) -> (r: usize)
        ensures r == self.cache().len(),
    {
        self.stream_cache.cached_count()
    }

    /// The merged trailer dictionary.
    pub fn trailer(&self) -> (r: &CosDictionary)
        ensures r@ == self.xref.trailer@,
    {
        &self.xref.trailer
    }

    /// The merged trailer dictionary, for changing it.
    pub fn trailer_mut(&mut self) -> (r: &mut CosDictionary)
        ensures *r == old(self).xref.trailer, final(self).xref.trailer == *final(r),
            final(self).objects == old(self).objects, final(self).xref@ == old(self).xref@,
    {
        &mut self.xref.trailer
    }

    /// The catalog's id: the trailer's `/Root` reference.
    pub fn catalog_ref(&self) -> (r: Option<ObjectId>)
        ensures
            r == (match dict_lookup(self.xref.trailer@, lit("Root")) {
                Some(CosValue::Ref(n, g)) => Some(ObjectId { object_number: n, generation: g }),
                _ => None::<ObjectId>,
            }),
    {
        match self.xref.trailer.get(&CosName::named("Root")) {
            Some(CosObject::Reference(id)) => Some(*id),
            _ => None,
        }
    }

    /// The catalog's id (the trailer's `/Root` reference).
    pub fn catalog_id(&self) -> (r: Option<ObjectId>)
        ensures r == self.catalog_id_spec(),
    {
        self.catalog_ref()
    }

    pub open spec fn catalog_id_spec(&self) -> Option<ObjectId> {
        match dict_lookup(self.xref.trailer@, lit("Root")) {
            Some(CosValue::Ref(n, g)) => Some(ObjectId { object_number: n, generation: g }),
            _ => None,
        }
    }

    /// The catalog dictionary's entries, when the trailer's `/Root` names a
    /// stored dictionary.
    pub open spec fn catalog_dict(&self) -> Option<Seq<(Seq<u8>, CosValue)>> {
        match self.catalog_id_spec() {
            Some(id) => match store_find(self.objects@, id) {
                Some(CosValue::Dict(d)) => Some(d),
                _ => None,
            },
            None => None,
        }
    }

    /// The catalog dictionary: the stored object the trailer's `/Root` names.
    pub fn catalog(&self) -> (r: Option<&CosDictionary>)
        ensures
            match self.catalog_id_spec() {
                Some(id) => match store_find(self.objects@, id) {
                    Some(CosValue::Dict(d)) => r is Some && r->Some_0@ == d,
                    _ => r is None,
                },
                None => r is None,
            },
    {
        let id = self.catalog_ref()?;
        match self.objects.get(&id) {
            Some(CosObject::Dictionary(d)) => Some(d),
            _ => None,
        }
    }

    /// Number of stored objects.
    pub fn object_count(&self) -> (r: usize)
        ensures r == self.objects@.len(),
    {
        self.objects.len()
    }
}

/// The end of the run of decimal digits that starts at `p`.
pub open spec fn digit_run_end(s: Seq<u8>, p: int) -> int
    decreases s.len() - p,
{
    if 0 <= p < s.len() && is_digit(s[p]) { digit_run_end(s, p + 1) } else { p }
}

/// A decimal `u32` at `pos`: its value and the end of its digits; `None`
/// when no digit stands at `pos` or the value does not fit.
pub open spec fn u32_prefix(s: Seq<u8>, pos: int) -> Option<(u32, int)> {
    let e = digit_run_end(s, pos);
    if e == pos || digits_value(s.subrange(pos, e)) > 0xffff_ffff {
        None
    } else {
        Some((digits_value(s.subrange(pos, e)) as u32, e))
    }
}

/// White space between the parts of an object header.
pub open spec fn is_space(b: u8) -> bool {
    b == 0x20 || b == 0x09 || b == 0x0d || b == 0x0a || b == 0x0c || b == 0x00
}

/// The first position from `p` that is not white space.
pub open spec fn spaces_end(s: Seq<u8>, p: int) -> int
    decreases s.len() - p,
{
    if 0 <= p < s.len() && is_space(s[p]) { spaces_end(s, p + 1) } else { p }
}

/// A letter or a digit.
pub open spec fn is_alnum(b: u8) -> bool {
    (0x30 <= b <= 0x39) || (0x41 <= b <= 0x5a) || (0x61 <= b <= 0x7a)
}

/// The header `N G obj` at `pos`: both numbers and the position after
/// `obj`, which no letter or digit may follow.
pub open spec fn obj_header(s: Seq<u8>, pos: int) -> Option<(u32, u32, int)> {
    match u32_prefix(s, pos) {
        None => None,
        Some((n, p1)) => match u32_prefix(s, spaces_end(s, p1)) {
            None => None,
            Some((g, p3)) => {
                let p4 = spaces_end(s, p3);
                if !(p4 + 3 <= s.len() && s.subrange(p4, p4 + 3) == lit("obj")) {
                    None
                } else if p4 + 3 < s.len() && is_alnum(s[p4 + 3]) {
                    None
                } else {
                    Some((n, g, p4 + 3))
                }
            },
        },
    }
}

proof fn lemma_digit_run_end(s: Seq<u8>, p: int)
    requires 0 <= p <= s.len(),
    ensures
        p <= digit_run_end(s, p) <= s.len(),
        forall|k: int| p <= k < digit_run_end(s, p) ==> is_digit(#[trigger] s[k]),
    decreases s.len() - p,
{
    if p < s.len() && is_digit(s[p]) {
        lemma_digit_run_end(s, p + 1);
    }
}

proof fn lemma_spaces_end(s: Seq<u8>, p: int)
    requires 0 <= p <= s.len(),
    ensures p <= spaces_end(s, p) <= s.len(),
    decreases s.len() - p,
{
    if p < s.len() && is_space(s[p]) {
        lemma_spaces_end(s, p + 1);
    }
}

/// Tries to read `N G obj` at `pos` (see `obj_header`).
pub fn try_parse_obj_header(bytes: &[u8], pos: usize) -> (r: Option<(u32, u32, usize)>)
    requires pos <= bytes@.len(),
    ensures
        r is Some ==> pos < r->Some_0.2 <= bytes@.len(),
        match r {
            Some((n, g, e)) => obj_header(bytes@, pos as int) == Some((n, g, e as int)),
            None => obj_header(bytes@, pos as int) is None,
        },
{
    let ghost s = bytes@;
    let (n, p1) = match parse_u32_prefix(bytes, pos) {
        Some(x) => x,
        None => {
            proof { assert(u32_prefix(s, pos as int) is None); }
            return None;
        }
    };
    proof { assert(u32_prefix(s, pos as int) == Some((n, p1 as int))); }
    let p2 = skip_spaces(bytes, p1);
    let (g, p3) = match parse_u32_prefix(bytes, p2) {
        Some(x) => x,
        None => {
            proof { assert(u32_prefix(s, spaces_end(s, p1 as int)) is None); }
            return None;
        }
    };
    proof { assert(u32_prefix(s, spaces_end(s, p1 as int)) == Some((g, p3 as int))); }
    let p4 = skip_spaces(bytes, p3);
    proof { reveal_strlit("obj"); vstd::string::is_ascii_spec_bytes("obj"); }
    if !starts_with_at(bytes, p4, "obj".as_bytes()) {
        proof { assert(!(p4 + 3 <= s.len() && s.subrange(p4 as int, p4 + 3) == lit("obj"))); }
        return None;
    }
    assert(p4 + 3 <= bytes.len());
    let after = p4 + 3;
    if after < bytes.len() {
        let c = bytes[after];
        if (0x30 <= c && c <= 0x39) || (0x41 <= c && c <= 0x5a) || (0x61 <= c && c <= 0x7a) {
            return None;
        }
    }
    Some((n, g, after))
}

/// A decimal `u32` at `pos` (see `u32_prefix`).
pub fn parse_u32_prefix(bytes: &[u8], pos: usize) -> (r: Option<(u32, usize)>)
    requires pos <= bytes@.len(),
    ensures
        r is Some ==> pos < r->Some_0.1 <= bytes@.len(),
        match r {
            Some((v, e)) => u32_prefix(bytes@, pos as int) == Some((v, e as int)),
            None => u32_prefix(bytes@, pos as int) is None,
        },
{
    proof { lemma_digit_run_end(bytes@, pos as int); }
    if pos >= bytes.len() || !(0x30 <= bytes[pos] && bytes[pos] <= 0x39) {
        return None;
    }
    let mut end = pos;
    while end < bytes.len() && 0x30 <= bytes[end] && bytes[end] <= 0x39
        invariant pos <= end <= bytes@.len(), digit_run_end(bytes@, pos as int) == digit_run_end(bytes@, end as int),
        decreases bytes.len() - end,
    {
        end += 1;
    }
    let ghost t = bytes@.subrange(pos as int, end as int);
    proof {
        assert(bytes@.subrange(pos as int, end as int) == bytes@.subrange(pos as int, end as int));
        assert(t[0] != 0x2b);
        assert(all_digits(t));
    }
    match parse_unsigned(&bytes[pos..end], 0xffff_ffff) {
        Some(v) => {
            if end > pos { Some((v as u32, end)) } else { None }
        }
        None => None,
    }
}

/// Position after the white space (SPACE, TAB, CR, LF, FF, NUL) from `pos`.
pub fn skip_spaces(bytes: &[u8], pos: usize) -> (r: usize)
    requires pos <= bytes@.len(),
    ensures pos <= r <= bytes@.len(), r == spaces_end(bytes@, pos as int),
{
    let mut p = pos;
    while p < bytes.len() && (bytes[p] == 0x20 || bytes[p] == 0x09 || bytes[p] == 0x0d || bytes[p] == 0x0a
        || bytes[p] == 0x0c || bytes[p] == 0x00)
        invariant pos <= p <= bytes@.len(), spaces_end(bytes@, pos as int) == spaces_end(bytes@, p as int),
        decreases bytes.len() - p,
    {
        p += 1;
    }
    p
}

/// The table after a `trailer` keyword at `i`: its dictionary merged into
/// the trailer, when one follows.
pub open spec fn trailer_at(b: Seq<u8>, i: int, t: XT) -> XT {
    if 0 <= i && i + 7 <= b.len() && b.subrange(i, i + 7) == lit("trailer") {
        match parse_value(b.subrange(i + 7, b.len() as int), 0) {
            ParseOut::Obj(CosValue::Dict(d), _) => (t.0, merge_from(t.1, d, 0)),
            _ => t,
        }
    } else {
        t
    }
}

/// The table a linear scan builds from position `i`: each `N G obj`
/// header (at a digit) records `N G` as in use at its position unless
/// already recorded, and the scan goes on after `obj`; elsewhere a
/// `trailer` keyword merges the dictionary after it into the trailer.
pub open spec fn scan_from(b: Seq<u8>, i: int, t: XT) -> XT
    decreases b.len() - i,
{
    if i < 0 || i >= b.len() {
        t
    } else if is_digit(b[i]) && obj_header(b, i) is Some && obj_header(b, i)->Some_0.2 > i {
        let (n, g, e) = obj_header(b, i)->Some_0;
        scan_from(b, e, xt_insert(t, ObjectId { object_number: n, generation: g as u16 },
            XRefEntry::InUse { offset: i as u64, generation: g as u16 }))
    } else {
        scan_from(b, i + 1, trailer_at(b, i, t))
    }
}

/// Builds a table by scanning for `N G obj` headers: the first occurrence
/// of each id is recorded as in use at its position; dictionaries after
/// `trailer` keywords are merged into the trailer.
fn linear_scan_xref(bytes: &[u8], report: &mut RecoveryReport) -> (r: XRefTable)
    ensures r.wf(), final(report).xref_recovered == old(report).xref_recovered,
        (r@, r.trailer@) == scan_from(bytes@, 0, (Seq::empty(), Seq::empty())),
        r.pdf_version is None,
        final(report).objects_skipped == old(report).objects_skipped,
        final(report).warnings@.len() == old(report).warnings@.len() + 1,
{
    let mut table = XRefTable::new();
    let mut found: usize = 0;
    let len = bytes.len();
    let mut i: usize = 0;
    proof { reveal_strlit("trailer"); vstd::string::is_ascii_spec_bytes("trailer"); }
    proof { assert(table.trailer@ =~= Seq::<(Seq<u8>, CosValue)>::empty()); }
    while i < len
        invariant i <= len == bytes@.len(), table.wf(), lit("trailer").len() == 7,
            scan_from(bytes@, i as int, (table@, table.trailer@)) == scan_from(bytes@, 0, (Seq::empty(), Seq::empty())),
            table.pdf_version is None,
        decreases len - i,
    {
        let ghost t0: XT = (table@, table.trailer@);
        if !(0x30 <= bytes[i] && bytes[i] <= 0x39) {
            proof { assert(!is_digit(bytes@[i as int])); }
            if starts_with_at(bytes, i, "trailer".as_bytes()) {
                let mut p = Parser::new(&bytes[i + 7..len]);
                proof { assert(p.lexer.data@ == bytes@.subrange(i + 7, bytes@.len() as int)); }
                if let Ok(Some(CosObject::Dictionary(d))) = p.parse_object() {
                    table.merge_trailer(&d);
                }
            }
            proof { assert((table@, table.trailer@) == trailer_at(bytes@, i as int, t0)); }
            i += 1;
        } else {
            match try_parse_obj_header(bytes, i) {
                Some((n, g, body_start)) => {
                    let id = ObjectId::new(n, g as u16);
                    proof { assert(is_digit(bytes@[i as int])); }
                    if table.get(&id).is_none() {
                        table.insert_if_absent(id, XRefEntry::InUse { offset: i as u64, generation: g as u16 });
                        found = if found < usize::MAX { found + 1 } else { found };
                    }
                    proof {
                        assert((table@, table.trailer@) == xt_insert(t0, id,
                            XRefEntry::InUse { offset: i as u64, generation: g as u16 }));
                    }
                    i = body_start;
                }
                None => {
                    if starts_with_at(bytes, i, "trailer".as_bytes()) {
                        let mut p = Parser::new(&bytes[i + 7..len]);
                        proof { assert(p.lexer.data@ == bytes@.subrange(i + 7, bytes@.len() as int)); }
                        if let Ok(Some(CosObject::Dictionary(d))) = p.parse_object() {
                            table.merge_trailer(&d);
                        }
                    }
                    proof { assert((table@, table.trailer@) == trailer_at(bytes@, i as int, t0)); }
                    i += 1;
                }
            }
        }
    }
    report.warnings.push(scan_warning(found));
    table
}

impl RecoveryReport {
    pub open spec fn is_clean_spec(&self) -> bool {
        self.warnings@.len() == 0
    }
}

} // verus!

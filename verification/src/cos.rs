//! The COS (Carousel Object System) data model: the objects a PDF file is made of.

use vstd::prelude::*;
use vstd::std_specs::iter::IteratorSpec;
use crate::bytes::{bytes_eq, clone_bytes, lit, str_bytes};
use crate::text::{from_utf8_lossy, utf8_lossy};

verus! {

/// Identifier of an indirect object: object number and generation.
#[derive(Debug, Clone, Copy, PartialEq, Eq, Hash, PartialOrd, Ord)]
pub struct ObjectId {
    pub object_number: u32,
    pub generation: u16,
}

impl ObjectId {
    pub fn new(object_number: u32, generation: u16) -> (r: ObjectId)
        ensures r.object_number == object_number, r.generation == generation,
    {
        ObjectId { object_number, generation }
    }

    /// Field-wise equality.
    pub fn same(&self, other: &ObjectId) -> (r: bool)
        ensures r == (*self == *other),
    {
        self.object_number == other.object_number && self.generation == other.generation
    }
}

/// A PDF name object, stored as its raw bytes (without the leading slash).
#[derive(Debug, PartialEq, Eq, Hash, PartialOrd, Ord)]
pub struct CosName {
    pub bytes: Vec<u8>,
}

impl CosName {
    pub fn new(bytes: Vec<u8>) -> (r: CosName)
        ensures r.bytes@ == bytes@,
    {
        CosName { bytes }
    }

    /// Builds a name from a byte slice.
    pub fn from_slice(bytes: &[u8]) -> (r: CosName)
        ensures r.bytes@ == bytes@,
    {
        CosName { bytes: clone_bytes(bytes) }
    }

    pub fn as_bytes(&self) -> (r: &[u8])
        ensures r@ == self.bytes@,
    {
        self.bytes.as_slice()
    }

    /// Byte-wise equality of two names.
    pub fn same(&self, other: &CosName) -> (r: bool)
        ensures r == (self.bytes@ == other.bytes@),
    {
        bytes_eq(self.bytes.as_slice(), other.bytes.as_slice())
    }

    /// `true` when this name is spelled `b`.
    pub fn is(&self, b: &[u8]) -> (r: bool)
        ensures r == (self.bytes@ == b@),
    {
        bytes_eq(self.bytes.as_slice(), b)
    }

    pub fn copy(&self) -> (r: CosName)
        ensures r.bytes@ == self.bytes@,
    {
        CosName { bytes: clone_bytes(self.bytes.as_slice()) }
    }

    /// The name spelled by a string literal.
    pub fn named(s: &str) -> (r: CosName)
        ensures r.bytes@ == lit(s),
    {
        CosName { bytes: str_bytes(s) }
    }

    /// `/Type`
    pub fn type_key() -> (r: CosName)
        ensures r.bytes@ == lit("Type"),
    {
        Self::named("Type")
    }

    /// `/Count`
    pub fn count() -> (r: CosName)
        ensures r.bytes@ == lit("Count"),
    {
        Self::named("Count")
    }

    /// `/Pages`
    pub fn pages() -> (r: CosName)
        ensures r.bytes@ == lit("Pages"),
    {
        Self::named("Pages")
    }

    /// `/Root`
    pub fn root() -> (r: CosName)
        ensures r.bytes@ == lit("Root"),
    {
        Self::named("Root")
    }

    /// `/Prev`
    pub fn prev() -> (r: CosName)
        ensures r.bytes@ == lit("Prev"),
    {
        Self::named("Prev")
    }

    /// `/Kids`
    pub fn kids() -> (r: CosName)
        ensures r.bytes@ == lit("Kids"),
    {
        Self::named("Kids")
    }

    /// `/Resources`
    pub fn resources() -> (r: CosName)
        ensures r.bytes@ == lit("Resources"),
    {
        Self::named("Resources")
    }

    /// `/Contents`
    pub fn contents() -> (r: CosName)
        ensures r.bytes@ == lit("Contents"),
    {
        Self::named("Contents")
    }

    /// `/Subtype`
    pub fn subtype() -> (r: CosName)
        ensures r.bytes@ == lit("Subtype"),
    {
        Self::named("Subtype")
    }

    /// `/Parent`
    pub fn parent() -> (r: CosName)
        ensures r.bytes@ == lit("Parent"),
    {
        Self::named("Parent")
    }

    /// `/Annots`
    pub fn annots() -> (r: CosName)
        ensures r.bytes@ == lit("Annots"),
    {
        Self::named("Annots")
    }

    /// `/Length`
    pub fn length() -> (r: CosName)
        ensures r.bytes@ == lit("Length"),
    {
        Self::named("Length")
    }

    /// `/Filter`
    pub fn filter() -> (r: CosName)
        ensures r.bytes@ == lit("Filter"),
    {
        Self::named("Filter")
    }
}

/// Mathematical model of a COS object.
pub enum CosValue {
    Null,
    Bool(bool),
    Integer(int),
    Real(Seq<u8>),
    Str(Seq<u8>),
    Name(Seq<u8>),
    Array(Seq<CosValue>),
    Dict(Seq<(Seq<u8>, CosValue)>),
    Stream(Seq<(Seq<u8>, CosValue)>, Seq<u8>),
    Ref(u32, u16),
}

/// A dictionary: key/value entries in insertion order, keys unique.
#[derive(Debug, PartialEq)]
pub struct CosDictionary {
    pub entries: Vec<(CosName, CosObject)>,
}

/// A stream: its dictionary and its (still encoded) data.
#[derive(Debug, PartialEq)]
pub struct CosStream {
    pub dictionary: CosDictionary,
    pub data: Vec<u8>,
}

/// A COS object.
#[derive(Debug, PartialEq)]
pub enum CosObject {
    Null,
    Bool(bool),
    Integer(i64),
    /// A real number, kept as the text it was written with.
    Real(Vec<u8>),
    String(Vec<u8>),
    Name(CosName),
    Array(Vec<CosObject>),
    Dictionary(CosDictionary),
    Stream(CosStream),
    Reference(ObjectId),
}

pub open spec fn view_objs(s: Seq<CosObject>) -> Seq<CosValue>
    decreases s,
{
    if s.len() == 0 {
        Seq::empty()
    } else {
        view_objs(s.drop_last()).push(view_obj(s.last()))
    }
}

pub open spec fn view_entries(s: Seq<(CosName, CosObject)>) -> Seq<(Seq<u8>, CosValue)>
    decreases s,
{
    if s.len() == 0 {
        Seq::empty()
    } else {
        view_entries(s.drop_last()).push((s.last().0.bytes@, view_obj(s.last().1)))
    }
}

pub open spec fn view_obj(o: CosObject) -> CosValue
    decreases o,
{
    match o {
        CosObject::Null => CosValue::Null,
        CosObject::Bool(b) => CosValue::Bool(b),
        CosObject::Integer(i) => CosValue::Integer(i as int),
        CosObject::Real(t) => CosValue::Real(t@),
        CosObject::String(s) => CosValue::Str(s@),
        CosObject::Name(n) => CosValue::Name(n.bytes@),
        CosObject::Array(v) => CosValue::Array(view_objs(v@)),
        CosObject::Dictionary(d) => CosValue::Dict(view_entries(d.entries@)),
        CosObject::Stream(s) => CosValue::Stream(view_entries(s.dictionary.entries@), s.data@),
        CosObject::Reference(id) => CosValue::Ref(id.object_number, id.generation),
    }
}

impl View for CosObject {
    type V = CosValue;

    open spec fn view(&self) -> CosValue {
        view_obj(*self)
    }
}

impl View for CosDictionary {
    type V = Seq<(Seq<u8>, CosValue)>;

    open spec fn view(&self) -> Seq<(Seq<u8>, CosValue)> {
        view_entries(self.entries@)
    }
}

pub broadcast proof fn lemma_view_objs(s: Seq<CosObject>)
    ensures
        #[trigger] view_objs(s).len() == s.len(),
        forall|i: int| 0 <= i < s.len() ==> view_objs(s)[i] == view_obj(#[trigger] s[i]),
    decreases s.len(),
{
    if s.len() > 0 {
        lemma_view_objs(s.drop_last());
        assert forall|i: int| 0 <= i < s.len() implies view_objs(s)[i] == view_obj(#[trigger] s[i]) by {
            if i < s.len() - 1 {
                assert(s.drop_last()[i] == s[i]);
            }
        }
    }
}

pub broadcast proof fn lemma_view_entries(s: Seq<(CosName, CosObject)>)
    ensures
        #[trigger] view_entries(s).len() == s.len(),
        forall|i: int| 0 <= i < s.len() ==> view_entries(s)[i] == (#[trigger] s[i].0.bytes@, view_obj(s[i].1)),
    decreases s.len(),
{
    if s.len() > 0 {
        lemma_view_entries(s.drop_last());
        assert forall|i: int| 0 <= i < s.len() implies view_entries(s)[i] == (#[trigger] s[i].0.bytes@, view_obj(s[i].1)) by {
            if i < s.len() - 1 {
                assert(s.drop_last()[i] == s[i]);
            }
        }
    }
}

/// Sequences with the same elementwise view have the same view.
pub proof fn lemma_view_entries_ext(a: Seq<(CosName, CosObject)>, b: Seq<(CosName, CosObject)>)
    requires
        a.len() == b.len(),
        forall|i: int| 0 <= i < a.len() ==> a[i].0.bytes@ == b[i].0.bytes@ && view_obj(a[i].1) == view_obj(b[i].1),
    ensures view_entries(a) == view_entries(b),
{
    lemma_view_entries(a);
    lemma_view_entries(b);
    assert forall|i: int| 0 <= i < a.len() implies view_entries(a)[i] == view_entries(b)[i] by {
        assert(view_entries(a)[i] == (a[i].0.bytes@, view_obj(a[i].1)));
        assert(view_entries(b)[i] == (b[i].0.bytes@, view_obj(b[i].1)));
    }
    assert(view_entries(a) =~= view_entries(b));
}

pub proof fn lemma_view_objs_ext(a: Seq<CosObject>, b: Seq<CosObject>)
    requires
        a.len() == b.len(),
        forall|i: int| 0 <= i < a.len() ==> view_obj(a[i]) == view_obj(b[i]),
    ensures view_objs(a) == view_objs(b),
{
    lemma_view_objs(a);
    lemma_view_objs(b);
    assert forall|i: int| 0 <= i < a.len() implies view_objs(a)[i] == view_objs(b)[i] by {
        assert(view_objs(a)[i] == view_obj(a[i]));
        assert(view_objs(b)[i] == view_obj(b[i]));
    }
    assert(view_objs(a) =~= view_objs(b));
}

/// Index of the first entry with key `k`, or -1.
pub open spec fn find_key_from(s: Seq<(Seq<u8>, CosValue)>, k: Seq<u8>, i: int) -> int
    decreases s.len() - i,
{
    if i < 0 || i >= s.len() {
        -1
    } else if s[i].0 == k {
        i
    } else {
        find_key_from(s, k, i + 1)
    }
}

pub open spec fn find_key(s: Seq<(Seq<u8>, CosValue)>, k: Seq<u8>) -> int {
    find_key_from(s, k, 0)
}

/// Value stored under `k`, if any.
/// The text of a string entry, empty when missing or not a string.
pub open spec fn string_entry(d: Seq<(Seq<u8>, CosValue)>, key: Seq<u8>) -> Seq<char> {
    match dict_lookup(d, key) {
        Some(CosValue::Str(s)) => utf8_lossy(s),
        _ => Seq::empty(),
    }
}

pub open spec fn dict_lookup(s: Seq<(Seq<u8>, CosValue)>, k: Seq<u8>) -> Option<CosValue> {
    let i = find_key(s, k);
    if i >= 0 { Some(s[i].1) } else { None }
}

/// Inserting `k -> v`: replaces the value of an existing key in place,
/// else appends the entry.
pub open spec fn dict_insert(s: Seq<(Seq<u8>, CosValue)>, k: Seq<u8>, v: CosValue) -> Seq<(Seq<u8>, CosValue)> {
    let i = find_key(s, k);
    if i >= 0 { s.update(i, (k, v)) } else { s.push((k, v)) }
}

pub proof fn lemma_find_key_from(s: Seq<(Seq<u8>, CosValue)>, k: Seq<u8>, i: int)
    requires 0 <= i <= s.len(),
    ensures
        find_key_from(s, k, i) == -1 || (i <= find_key_from(s, k, i) < s.len() && s[find_key_from(s, k, i)].0 == k),
        find_key_from(s, k, i) == -1 ==> forall|j: int| i <= j < s.len() ==> s[j].0 != k,
        find_key_from(s, k, i) != -1 ==> forall|j: int| i <= j < find_key_from(s, k, i) ==> s[j].0 != k,
    decreases s.len() - i,
{
    if i < s.len() && s[i].0 != k {
        lemma_find_key_from(s, k, i + 1);
    }
}

/// Looking up after an insert: the inserted key gives the inserted value,
/// every other key what it gave before.
pub proof fn lemma_lookup_insert(s: Seq<(Seq<u8>, CosValue)>, k: Seq<u8>, v: CosValue, q: Seq<u8>)
    ensures dict_lookup(dict_insert(s, k, v), q) == (if q == k { Some(v) } else { dict_lookup(s, q) }),
{
    lemma_find_key_from(s, k, 0);
    lemma_find_key_from(s, q, 0);
    let t = dict_insert(s, k, v);
    lemma_find_key_from(t, q, 0);
    let i = find_key(s, k);
    let j = find_key(s, q);
    let jt = find_key(t, q);
    if i >= 0 {
        assert(t.len() == s.len());
        if q == k {
            assert(t[i].0 == q);
            if jt != i {
                assert(jt < i ==> s[jt].0 != k);
                assert(jt > i ==> false);
            }
        } else {
            if j >= 0 {
                assert(t[j] == s[j]);
                if jt != j {
                    assert(jt < j ==> t[jt] == s[jt] || jt == i);
                }
            } else {
                if jt >= 0 {
                    assert(jt != i);
                    assert(t[jt] == s[jt]);
                }
            }
        }
    } else {
        assert(t.len() == s.len() + 1);
        if q == k {
            assert(t[s.len() as int].0 == q);
            if jt >= 0 && jt < s.len() {
                assert(t[jt] == s[jt]);
            }
        } else {
            if j >= 0 {
                assert(t[j] == s[j]);
                if jt >= 0 && jt < j {
                    assert(t[jt] == s[jt]);
                }
            } else if jt >= 0 {
                if jt < s.len() {
                    assert(t[jt] == s[jt]);
                } else {
                    assert(t[jt].0 == k);
                }
            }
        }
    }
}

impl CosObject {
    /// A deep copy.
    pub fn deep_clone(&self) -> (r: CosObject)
        ensures r@ == self@,
        decreases self,
    {
        match self {
            CosObject::Null => CosObject::Null,
            CosObject::Bool(b) => CosObject::Bool(*b),
            CosObject::Integer(i) => CosObject::Integer(*i),
            CosObject::Real(t) => CosObject::Real(clone_bytes(t.as_slice())),
            CosObject::String(s) => CosObject::String(clone_bytes(s.as_slice())),
            CosObject::Name(n) => CosObject::Name(n.copy()),
            CosObject::Array(v) => {
                let mut r: Vec<CosObject> = Vec::new();
                let mut i: usize = 0;
                while i < v.len()
                    invariant
                        *self == CosObject::Array(*v),
                        i <= v.len(),
                        r@.len() == i,
                        forall|j: int| 0 <= j < i ==> view_obj(#[trigger] r@[j]) == view_obj(v@[j]),
                    decreases v.len() - i,
                {
                    proof {
                        broadcast use vstd::std_specs::vec::axiom_vec_index_decreases;
                        broadcast use vstd::std_specs::vec::axiom_vec_decreases_to_view;
                        assert(decreases_to!(*self => self->Array_0));
                        assert(decreases_to!(*v => v@));
                        assert(decreases_to!(v@ => v@[i as int]));
                        assert(decreases_to!(*self => v@[i as int]));
                    }
                    let c = v[i].deep_clone();
                    r.push(c);
                    i += 1;
                }
                proof { lemma_view_objs_ext(r@, v@); }
                CosObject::Array(r)
            }
            CosObject::Dictionary(d) => CosObject::Dictionary(d.deep_clone()),
            CosObject::Stream(s) => CosObject::Stream(CosStream {
                dictionary: s.dictionary.deep_clone(),
                data: clone_bytes(s.data.as_slice()),
            }),
            CosObject::Reference(id) => CosObject::Reference(*id),
        }
    }

    pub fn as_integer(&self) -> (r: Option<i64>)
        ensures r == (match self { CosObject::Integer(i) => Some(*i), _ => None::<i64> }),
    {
        match self {
            CosObject::Integer(i) => Some(*i),
            _ => None,
        }
    }

    pub fn as_bool(&self) -> (r: Option<bool>)
        ensures r == (match self { CosObject::Bool(b) => Some(*b), _ => None::<bool> }),
    {
        match self {
            CosObject::Bool(b) => Some(*b),
            _ => None,
        }
    }

    pub fn as_string(&self) -> (r: Option<&[u8]>)
        ensures
            match self {
                CosObject::String(s) => r is Some && r->Some_0@ == s@,
                _ => r is None,
            },
    {
        match self {
            CosObject::String(s) => Some(s.as_slice()),
            _ => None,
        }
    }

    pub fn as_name(&self) -> (r: Option<&CosName>)
        ensures
            match self {
                CosObject::Name(n) => r == Some(n),
                _ => r is None,
            },
    {
        match self {
            CosObject::Name(n) => Some(n),
            _ => None,
        }
    }

    pub fn as_array(&self) -> (r: Option<&Vec<CosObject>>)
        ensures
            match self {
                CosObject::Array(v) => r == Some(v),
                _ => r is None,
            },
    {
        match self {
            CosObject::Array(v) => Some(v),
            _ => None,
        }
    }

    pub fn as_dictionary(&self) -> (r: Option<&CosDictionary>)
        ensures
            match self {
                CosObject::Dictionary(d) => r == Some(d),
                _ => r is None,
            },
    {
        match self {
            CosObject::Dictionary(d) => Some(d),
            _ => None,
        }
    }

    pub fn as_stream(&self) -> (r: Option<&CosStream>)
        ensures
            match self {
                CosObject::Stream(s) => r == Some(s),
                _ => r is None,
            },
    {
        match self {
            CosObject::Stream(s) => Some(s),
            _ => None,
        }
    }

    pub fn as_reference(&self) -> (r: Option<ObjectId>)
        ensures r == (match self { CosObject::Reference(id) => Some(*id), _ => None::<ObjectId> }),
    {
        match self {
            CosObject::Reference(id) => Some(*id),
            _ => None,
        }
    }

    /// `true` when this is the name `b`.
    pub fn is_name(&self, b: &[u8]) -> (r: bool)
        ensures r == (self@ == CosValue::Name(b@)),
    {
        match self {
            CosObject::Name(n) => n.is(b),
            _ => false,
        }
    }
}

impl Clone for CosObject {
    fn clone(&self) -> (r: Self)
        ensures r@ == self@,
    {
        self.deep_clone()
    }
}

impl CosDictionary {
    pub fn new() -> (r: CosDictionary)
        ensures r@ == Seq::<(Seq<u8>, CosValue)>::empty(), r.entries@.len() == 0,
    {
        CosDictionary { entries: Vec::new() }
    }

    /// A deep copy.
    pub fn deep_clone(&self) -> (r: CosDictionary)
        ensures r@ == self@,
        decreases self,
    {
        let mut r: Vec<(CosName, CosObject)> = Vec::new();
        let mut i: usize = 0;
        while i < self.entries.len()
            invariant
                i <= self.entries.len(),
                r@.len() == i,
                forall|j: int| 0 <= j < i ==> (#[trigger] r@[j]).0.bytes@ == self.entries@[j].0.bytes@
                    && view_obj(r@[j].1) == view_obj(self.entries@[j].1),
            decreases self.entries.len() - i,
        {
            proof {
                broadcast use vstd::std_specs::vec::axiom_vec_index_decreases;
                broadcast use vstd::std_specs::vec::axiom_vec_decreases_to_view;
                assert(decreases_to!(*self => self.entries@[i as int].1));
            }
            let k = self.entries[i].0.copy();
            let c = self.entries[i].1.deep_clone();
            r.push((k, c));
            i += 1;
        }
        proof { lemma_view_entries_ext(r@, self.entries@); }
        CosDictionary { entries: r }
    }

    /// Number of entries.
    pub fn len(&self) -> (r: usize)
        ensures r == self@.len(),
    {
        proof { lemma_view_entries(self.entries@); }
        self.entries.len()
    }

    pub fn is_empty(&self) -> (r: bool)
        ensures r == (self@.len() == 0),
    {
        proof { lemma_view_entries(self.entries@); }
        self.entries.len() == 0
    }

    /// Position of `key`, or `None`.
    pub fn index_of(&self, key: &[u8]) -> (r: Option<usize>)
        ensures
            match r {
                Some(i) => find_key(self@, key@) == i as int && i < self.entries@.len(),
                None => find_key(self@, key@) == -1,
            },
    {
        proof { lemma_view_entries(self.entries@); }
        let mut i: usize = 0;
        while i < self.entries.len()
            invariant
                i <= self.entries.len(),
                self@.len() == self.entries@.len(),
                find_key_from(self@, key@, i as int) == find_key(self@, key@),
                forall|j: int| 0 <= j < self.entries@.len() ==> self@[j].0 == (#[trigger] self.entries@[j]).0.bytes@,
            decreases self.entries.len() - i,
        {
            if self.entries[i].0.is(key) {
                return Some(i);
            }
            i += 1;
        }
        None
    }

    /// Looks up a value by key.
    pub fn get(&self, key: &CosName) -> (r: Option<&CosObject>)
        ensures
            match dict_lookup(self@, key.bytes@) {
                Some(v) => r is Some && r->Some_0@ == v,
                None => r is None,
            },
    {
        self.get_bytes(key.as_bytes())
    }

    /// Looks up a value by the key's bytes.
    pub fn get_bytes(&self, key: &[u8]) -> (r: Option<&CosObject>)
        ensures
            match dict_lookup(self@, key@) {
                Some(v) => r is Some && r->Some_0@ == v,
                None => r is None,
            },
            r is Some ==> exists|i: int| 0 <= i < self.entries@.len() && r->Some_0 == &self.entries@[i].1,
    {
        proof { lemma_view_entries(self.entries@); }
        match self.index_of(key) {
            Some(i) => {
                proof { assert(self@[i as int] == (self.entries@[i as int].0.bytes@, view_obj(self.entries@[i as int].1))); }
                Some(&self.entries[i].1)
            }
            None => None,
        }
    }

    pub fn contains_key(&self, key: &CosName) -> (r: bool)
        ensures r == (dict_lookup(self@, key.bytes@) is Some),
    {
        self.index_of(key.as_bytes()).is_some()
    }

    /// Inserts `key -> value`, replacing an existing value in place.
    pub fn insert(&mut self, key: CosName, value: CosObject)
        ensures final(self)@ == dict_insert(old(self)@, key.bytes@, value@),
    {
        proof { lemma_view_entries(self.entries@); }
        let ghost kb = key.bytes@;
        let ghost vv = value@;
        match self.index_of(key.as_bytes()) {
            Some(i) => {
                let ghost old_entries = self.entries@;
                self.entries.set(i, (key, value));
                proof {
                    lemma_view_entries(self.entries@);
                    lemma_view_entries(old_entries);
                    assert forall|j: int| 0 <= j < self.entries@.len() implies self@[j] == old(self)@.update(i as int, (kb, vv))[j] by {
                        assert(self@[j] == (self.entries@[j].0.bytes@, view_obj(self.entries@[j].1)));
                        assert(old(self)@[j] == (old_entries[j].0.bytes@, view_obj(old_entries[j].1)));
                    }
                    assert(self@ =~= old(self)@.update(i as int, (kb, vv)));
                }
            }
            None => {
                let ghost old_entries = self.entries@;
                self.entries.push((key, value));
                proof {
                    lemma_view_entries(self.entries@);
                    lemma_view_entries(old_entries);
                    assert forall|j: int| 0 <= j < self.entries@.len() implies self@[j] == old(self)@.push((kb, vv))[j] by {
                        assert(self@[j] == (self.entries@[j].0.bytes@, view_obj(self.entries@[j].1)));
                        if j < old_entries.len() {
                            assert(old(self)@[j] == (old_entries[j].0.bytes@, view_obj(old_entries[j].1)));
                        }
                    }
                    assert(self@ =~= old(self)@.push((kb, vv)));
                }
            }
        }
    }

    /// Same as [`CosDictionary::insert`].
    pub fn set(&mut self, key: CosName, value: CosObject)
        ensures final(self)@ == dict_insert(old(self)@, key.bytes@, value@),
    {
        self.insert(key, value);
    }

    /// Removes the entry for `key`, returning its value.
    pub fn remove(&mut self, key: &CosName) -> (r: Option<CosObject>)
        ensures
            match dict_lookup(old(self)@, key.bytes@) {
                Some(v) => r is Some && r->Some_0@ == v
                    && final(self)@ == old(self)@.remove(find_key(old(self)@, key.bytes@)),
                None => r is None && final(self)@ == old(self)@,
            },
    {
        proof { lemma_view_entries(self.entries@); }
        match self.index_of(key.as_bytes()) {
            Some(i) => {
                let ghost old_entries = self.entries@;
                let (_, v) = self.entries.remove(i);
                proof {
                    lemma_view_entries(self.entries@);
                    lemma_view_entries(old_entries);
                    assert(v == old_entries[i as int].1);
                    assert(old(self)@[i as int] == (old_entries[i as int].0.bytes@, view_obj(old_entries[i as int].1)));
                    assert forall|j: int| 0 <= j < self.entries@.len() implies self@[j] == old(self)@.remove(i as int)[j] by {
                        assert(self@[j] == (self.entries@[j].0.bytes@, view_obj(self.entries@[j].1)));
                        if j < i {
                            assert(old(self)@[j] == (old_entries[j].0.bytes@, view_obj(old_entries[j].1)));
                        } else {
                            assert(old(self)@[j + 1] == (old_entries[j + 1].0.bytes@, view_obj(old_entries[j + 1].1)));
                        }
                    }
                    assert(self@ =~= old(self)@.remove(i as int));
                }
                Some(v)
            }
            None => None,
        }
    }

    /// The text of a string entry (`String::from_utf8_lossy`), empty when
    /// the entry is missing or not a string.
    pub fn text_entry(&self, key: &str) -> (r: String)
        ensures r@ == string_entry(self@, lit(key)),
    {
        match self.get(&CosName::named(key)) {
            Some(CosObject::String(s)) => from_utf8_lossy(s.as_slice()),
            _ => String::new(),
        }
    }

    pub fn get_int(&self, key: &CosName) -> (r: Option<i64>)
        ensures
            r == (match dict_lookup(self@, key.bytes@) {
                Some(CosValue::Integer(i)) => Some(i as i64),
                _ => None::<i64>,
            }),
    {
        match self.get(key) {
            Some(CosObject::Integer(i)) => Some(*i),
            _ => None,
        }
    }

    pub fn get_name(&self, key: &CosName) -> (r: Option<&CosName>)
        ensures
            match dict_lookup(self@, key.bytes@) {
                Some(CosValue::Name(n)) => r is Some && r->Some_0.bytes@ == n,
                _ => r is None,
            },
    {
        match self.get(key) {
            Some(CosObject::Name(n)) => Some(n),
            _ => None,
        }
    }

    pub fn get_array(&self, key: &CosName) -> (r: Option<&Vec<CosObject>>)
        ensures
            match dict_lookup(self@, key.bytes@) {
                Some(CosValue::Array(a)) => r is Some && view_objs(r->Some_0@) == a,
                _ => r is None,
            },
    {
        match self.get(key) {
            Some(CosObject::Array(a)) => Some(a),
            _ => None,
        }
    }

    pub fn get_dictionary(&self, key: &CosName) -> (r: Option<&CosDictionary>)
        ensures
            match dict_lookup(self@, key.bytes@) {
                Some(CosValue::Dict(d)) => r is Some && r->Some_0@ == d,
                _ => r is None,
            },
    {
        match self.get(key) {
            Some(CosObject::Dictionary(d)) => Some(d),
            _ => None,
        }
    }

    /// The entries in insertion order.
    pub fn as_slice(&self) -> (r: &[(CosName, CosObject)])
        ensures view_entries(r@) == self@, r@.len() == self@.len(),
    {
        proof { lemma_view_entries(self.entries@); }
        self.entries.as_slice()
    }

    /// Entries in insertion order.
    pub fn iter(&self) -> (r: std::slice::Iter<'_, (CosName, CosObject)>)
        ensures
            r.remaining().len() == self.entries@.len(),
            forall|i: int| 0 <= i < self.entries@.len() ==> *(#[trigger] r.remaining()[i]) == self.entries@[i],
    {
        proof { broadcast use vstd::std_specs::slice::axiom_spec_slice_iter; }
        self.entries.as_slice().iter()
    }
}

impl Clone for CosDictionary {
    fn clone(&self) -> (r: Self)
        ensures r@ == self@,
    {
        self.deep_clone()
    }
}

impl CosStream {
    pub fn new(dictionary: CosDictionary, data: Vec<u8>) -> (r: CosStream)
        ensures r.dictionary == dictionary, r.data == data,
    {
        CosStream { dictionary, data }
    }

    pub fn deep_clone(&self) -> (r: CosStream)
        ensures r.dictionary@ == self.dictionary@, r.data@ == self.data@,
    {
        CosStream { dictionary: self.dictionary.deep_clone(), data: clone_bytes(self.data.as_slice()) }
    }
}

impl Clone for CosStream {
    fn clone(&self) -> (r: Self)
        ensures r.dictionary@ == self.dictionary@, r.data@ == self.data@,
    {
        self.deep_clone()
    }
}

impl Clone for CosName {
    fn clone(&self) -> (r: Self)
        ensures r.bytes@ == self.bytes@,
    {
        self.copy()
    }
}

} // verus!

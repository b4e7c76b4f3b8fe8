//! A page: its dictionary, its index, and its attributes.

use vstd::prelude::*;
use crate::bytes::lit;
use crate::cos::{CosDictionary, CosName, CosObject, CosValue, dict_lookup};

verus! {

/// The resources dictionary of a page or form XObject.
#[derive(Debug, Clone)]
pub struct Resources<'a> {
    pub dict: &'a CosDictionary,
}

/// The dictionary under `key`, when that entry is a dictionary.
pub open spec fn sub_dict(d: Seq<(Seq<u8>, CosValue)>, key: Seq<u8>) -> Option<Seq<(Seq<u8>, CosValue)>> {
    match dict_lookup(d, key) {
        Some(CosValue::Dict(e)) => Some(e),
        _ => None,
    }
}

fn dict_entry<'b>(d: &'b CosDictionary, key: &str) -> (r: Option<&'b CosDictionary>)
    ensures
        match sub_dict(d@, lit(key)) {
            Some(e) => r is Some && r->Some_0@ == e,
            None => r is None,
        },
{
    match d.get(&CosName::named(key)) {
        Some(CosObject::Dictionary(e)) => Some(e),
        _ => None,
    }
}

impl<'a> Resources<'a> {
    pub fn new(dict: &'a CosDictionary) -> (r: Self)
        ensures r.dict == dict,
    {
        Resources { dict }
    }

    /// The resources dictionary.
    pub fn dictionary(&self) -> (r: &CosDictionary)
        ensures r == self.dict,
    {
        self.dict
    }

    /// The `/Font` sub-dictionary.
    pub fn font_dict(&self) -> (r: Option<&CosDictionary>)
        ensures match sub_dict(self.dict@, lit("Font")) { Some(e) => r is Some && r->Some_0@ == e, None => r is None },
    {
        dict_entry(self.dict, "Font")
    }

    /// The `/XObject` sub-dictionary.
    pub fn xobject_dict(&self) -> (r: Option<&CosDictionary>)
        ensures match sub_dict(self.dict@, lit("XObject")) { Some(e) => r is Some && r->Some_0@ == e, None => r is None },
    {
        dict_entry(self.dict, "XObject")
    }

    /// The `/ExtGState` sub-dictionary.
    pub fn ext_gstate_dict(&self) -> (r: Option<&CosDictionary>)
        ensures match sub_dict(self.dict@, lit("ExtGState")) { Some(e) => r is Some && r->Some_0@ == e, None => r is None },
    {
        dict_entry(self.dict, "ExtGState")
    }

    /// The `/ColorSpace` sub-dictionary.
    pub fn color_space_dict(&self) -> (r: Option<&CosDictionary>)
        ensures match sub_dict(self.dict@, lit("ColorSpace")) { Some(e) => r is Some && r->Some_0@ == e, None => r is None },
    {
        dict_entry(self.dict, "ColorSpace")
    }
}

/// A page: its dictionary and its 0-based index in the document.
#[derive(Debug, Clone)]
pub struct Page<'a> {
    /// The page dictionary.
    pub dict: &'a CosDictionary,
    /// Index of the page in the document (0-based).
    pub index: usize,
}

/// The remainder of `a / b` with the sign of `a`, as Rust's `%` computes it.
pub open spec fn rem_trunc(a: int, b: int) -> int {
    if a >= 0 { a % b } else { -((-a) % b) }
}

/// The truncated remainder by 360, moved into `0..360`, is the Euclidean
/// remainder.
pub proof fn lemma_rem_norm(s: int)
    ensures
        (if rem_trunc(s, 360) < 0 { rem_trunc(s, 360) + 360 } else { rem_trunc(s, 360) }) == s % 360,
        0 <= s % 360 < 360,
{
    if s < 0 {
        let m = (-s) % 360;
        assert(0 <= m < 360);
        if m == 0 {
            assert(s % 360 == 0) by (nonlinear_arith) requires (-s) % 360 == 0;
        } else {
            assert(s % 360 == 360 - m) by (nonlinear_arith) requires m == (-s) % 360, 0 < m < 360;
        }
    }
}

impl<'a> Page<'a> {
    pub fn new(dict: &'a CosDictionary, index: usize) -> (r: Self)
        ensures r.dict == dict, r.index == index,
    {
        Page { dict, index }
    }

    /// The page dictionary.
    pub fn dictionary(&self) -> (r: &CosDictionary)
        ensures r == self.dict,
    {
        self.dict
    }

    /// The rotation in degrees, one of 0, 90, 180 or 270 for a `/Rotate`
    /// that is a multiple of 90: `/Rotate` (0 when absent) brought into
    /// `0..360`.
    pub fn rotation(&self) -> (r: i64)
        ensures
            r == (match dict_lookup(self.dict@, lit("Rotate")) {
                Some(CosValue::Integer(n)) => (n as i64) as int,
                _ => 0int,
            }) % 360,
            0 <= r < 360,
    {
        let v: i64 = match self.dict.get_int(&CosName::named("Rotate")) {
            Some(n) => n,
            None => 0,
        };
        let m = v % 360;
        proof { lemma_rem_norm(v as int); }
        if m < 0 { m + 360 } else { m }
    }

    /// The `/Resources` dictionary, wrapped.
    pub fn resources(&self) -> (r: Option<Resources<'_>>)
        ensures match sub_dict(self.dict@, lit("Resources")) { Some(e) => r is Some && r->Some_0.dict@ == e, None => r is None },
    {
        match dict_entry(self.dict, "Resources") {
            Some(d) => Some(Resources::new(d)),
            None => None,
        }
    }

    /// The raw `/Contents` entry (a reference, an array, or a stream).
    pub fn contents_object(&self) -> (r: Option<&CosObject>)
        ensures match dict_lookup(self.dict@, lit("Contents")) { Some(v) => r is Some && r->Some_0@ == v, None => r is None },
    {
        self.dict.get(&CosName::named("Contents"))
    }
}

} // verus!

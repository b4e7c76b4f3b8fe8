//! Simple (single-byte) font kinds.

use vstd::prelude::*;
use crate::bytes::{eq_str, lit};
use vstd::string::StringSliceAdditionalSpecFns;

verus! {

/// The `/Subtype` of a simple font.
#[derive(Debug, Clone, Copy, PartialEq, Eq, Structural)]
pub enum SimpleFontSubtype {
    Type1,
    MMType1,
    TrueType,
    Type3,
}

pub open spec fn simple_subtype_name(s: SimpleFontSubtype) -> Seq<u8> {
    match s {
        SimpleFontSubtype::Type1 => lit("Type1"),
        SimpleFontSubtype::MMType1 => lit("MMType1"),
        SimpleFontSubtype::TrueType => lit("TrueType"),
        SimpleFontSubtype::Type3 => lit("Type3"),
    }
}

pub open spec fn simple_subtype_named(n: Seq<u8>) -> Option<SimpleFontSubtype> {
    if n == lit("Type1") {
        Some(SimpleFontSubtype::Type1)
    } else if n == lit("MMType1") {
        Some(SimpleFontSubtype::MMType1)
    } else if n == lit("TrueType") {
        Some(SimpleFontSubtype::TrueType)
    } else if n == lit("Type3") {
        Some(SimpleFontSubtype::Type3)
    } else {
        None
    }
}

impl SimpleFontSubtype {
    pub fn from_name(name: &[u8]) -> (r: Option<SimpleFontSubtype>)
        ensures r == simple_subtype_named(name@),
    {
        if eq_str(name, "Type1") {
            Some(SimpleFontSubtype::Type1)
        } else if eq_str(name, "MMType1") {
            Some(SimpleFontSubtype::MMType1)
        } else if eq_str(name, "TrueType") {
            Some(SimpleFontSubtype::TrueType)
        } else if eq_str(name, "Type3") {
            Some(SimpleFontSubtype::Type3)
        } else {
            None
        }
    }

    pub fn as_str(&self) -> (r: &'static str)
        ensures r.spec_bytes() == simple_subtype_name(*self),
    {
        match self {
            SimpleFontSubtype::Type1 => "Type1",
            SimpleFontSubtype::MMType1 => "MMType1",
            SimpleFontSubtype::TrueType => "TrueType",
            SimpleFontSubtype::Type3 => "Type3",
        }
    }
}

/// Reading a subtype's name gives the subtype back.
pub proof fn lemma_simple_subtype_round_trip(s: SimpleFontSubtype)
    ensures simple_subtype_named(simple_subtype_name(s)) == Some(s),
{
    reveal_strlit("Type1");
    reveal_strlit("MMType1");
    reveal_strlit("TrueType");
    reveal_strlit("Type3");
    vstd::string::is_ascii_spec_bytes("Type1");
    vstd::string::is_ascii_spec_bytes("MMType1");
    vstd::string::is_ascii_spec_bytes("TrueType");
    vstd::string::is_ascii_spec_bytes("Type3");
    let a = lit("Type1");
    let b = lit("MMType1");
    let c = lit("TrueType");
    let d = lit("Type3");
    assert(a.len() != b.len() && a.len() != c.len() && b.len() != c.len());
    assert(b.len() != d.len() && c.len() != d.len());
    assert(a[4] != d[4]);
}

} // verus!

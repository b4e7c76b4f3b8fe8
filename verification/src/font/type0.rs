//! Composite (Type0) fonts: the CIDFont kind and `/CIDSystemInfo`.

use vstd::prelude::*;
use crate::bytes::{eq_str, lit};
use crate::cos::{CosDictionary, CosName, CosValue, dict_lookup, string_entry};
use crate::text::{decimal_text, push_char, push_decimal, push_str};

verus! {

/// The CIDFont subtype inside a Type0 font.
#[derive(Debug, Clone, Copy, PartialEq, Eq, Structural)]
pub enum CidFontType {
    /// TrueType outlines.
    CidFontType2,
    /// CFF / Type1 outlines.
    CidFontType0,
}

pub open spec fn cid_font_type_named(n: Seq<u8>) -> Option<CidFontType> {
    if n == lit("CIDFontType2") {
        Some(CidFontType::CidFontType2)
    } else if n == lit("CIDFontType0") {
        Some(CidFontType::CidFontType0)
    } else {
        None
    }
}

impl CidFontType {
    pub fn from_name(name: &[u8]) -> (r: Option<CidFontType>)
        ensures r == cid_font_type_named(name@),
    {
        if eq_str(name, "CIDFontType2") {
            Some(CidFontType::CidFontType2)
        } else if eq_str(name, "CIDFontType0") {
            Some(CidFontType::CidFontType0)
        } else {
            None
        }
    }
}

/// The `/CIDSystemInfo` dictionary of a CIDFont.
#[derive(Debug, Clone, PartialEq, Eq)]
pub struct CidSystemInfo {
    pub registry: String,
    pub ordering: String,
    pub supplement: i32,
}

impl CidSystemInfo {
    /// Reads `/Registry`, `/Ordering` and `/Supplement` (missing entries give
    /// empty text and 0; the supplement keeps the low 32 bits).
    pub fn from_dict(dict: &CosDictionary) -> (r: CidSystemInfo)
        ensures
            r.registry@ == string_entry(dict@, lit("Registry")),
            r.ordering@ == string_entry(dict@, lit("Ordering")),
            r.supplement == (match dict_lookup(dict@, lit("Supplement")) {
                Some(CosValue::Integer(i)) => (i as i64) as i32,
                _ => 0i32,
            }),
    {
        let registry = dict.text_entry("Registry");
        let ordering = dict.text_entry("Ordering");
        let supplement = match dict.get_int(&CosName::named("Supplement")) {
            Some(i) => i as i32,
            None => 0,
        };
        CidSystemInfo { registry, ordering, supplement }
    }

    /// `Registry-Ordering-Supplement`.
    pub fn ros_string(&self) -> (r: String)
        ensures r@ == self.registry@ + seq!['-'] + self.ordering@ + seq!['-'] + decimal_text(self.supplement as int),
    {
        let mut s = String::new();
        push_str(&mut s, self.registry.as_str());
        push_char(&mut s, '-');
        push_str(&mut s, self.ordering.as_str());
        push_char(&mut s, '-');
        push_decimal(&mut s, self.supplement as i64);
        s
    }
}

impl Default for CidSystemInfo {
    fn default() -> (r: CidSystemInfo)
        ensures r.registry@.len() == 0, r.ordering@.len() == 0, r.supplement == 0,
    {
        CidSystemInfo { registry: String::new(), ordering: String::new(), supplement: 0 }
    }
}

} // verus!

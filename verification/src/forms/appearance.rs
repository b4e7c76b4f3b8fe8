//! What an appearance is drawn from: a field's default appearance string,
//! its value as text, and its name.

use vstd::prelude::*;
use crate::bytes::lit;
use crate::cos::{CosDictionary, CosName, CosObject, CosValue, dict_lookup};
use crate::forms::export::{ser, serialize_cos};
use crate::text::{from_utf8_lossy, from_utf8_strict, owned_text, utf8_lossy, utf8_text};

verus! {

/// The default appearance used when a field has none: Helvetica, 10 point,
/// black.
pub open spec fn default_da() -> Seq<char> {
    "/Helv 10 Tf 0 g"@
}

/// A field's default appearance string (`/DA`) when it is a UTF-8 string,
/// else the default.
pub open spec fn da_text(d: Seq<(Seq<u8>, CosValue)>) -> Seq<char> {
    match dict_lookup(d, lit("DA")) {
        Some(CosValue::Str(s)) => match utf8_text(s) {
            Some(t) => t,
            None => default_da(),
        },
        _ => default_da(),
    }
}

/// The default appearance string of a field (see `da_text`).
pub fn get_da(field_dict: &CosDictionary) -> (r: String)
    ensures r@ == da_text(field_dict@),
{
    match field_dict.get(&CosName::named("DA")) {
        Some(CosObject::String(s)) => match from_utf8_strict(s.as_slice()) {
            Some(t) => t,
            None => owned_text("/Helv 10 Tf 0 g"),
        },
        _ => owned_text("/Helv 10 Tf 0 g"),
    }
}

/// A copy of the field's value (`/V`).
pub fn get_effective_value(field_dict: &CosDictionary) -> (r: Option<CosObject>)
    ensures
        match dict_lookup(field_dict@, lit("V")) {
            Some(v) => r is Some && r->Some_0@ == v,
            None => r is None,
        },
{
    match field_dict.get(&CosName::named("V")) {
        Some(v) => Some(v.deep_clone()),
        None => None,
    }
}

/// A field's value as the text drawn: a string's text, a name's text, any
/// other object as it is written in form data, and nothing when there is
/// no value.
pub open spec fn value_text(d: Seq<(Seq<u8>, CosValue)>) -> Seq<char> {
    match dict_lookup(d, lit("V")) {
        Some(CosValue::Str(b)) => utf8_lossy(b),
        Some(CosValue::Name(n)) => utf8_lossy(n),
        Some(other) => ser(other),
        None => Seq::empty(),
    }
}

/// The field's value as text (see `value_text`).
pub fn get_field_value_as_string(field_dict: &CosDictionary) -> (r: String)
    ensures r@ == value_text(field_dict@),
{
    match get_effective_value(field_dict) {
        Some(CosObject::String(bytes)) => from_utf8_lossy(bytes.as_slice()),
        Some(CosObject::Name(name)) => from_utf8_lossy(name.as_bytes()),
        Some(other) => serialize_cos(&other),
        None => String::new(),
    }
}

/// The text of a field's `/T` string; empty when there is none.
pub open spec fn title_text(d: Seq<(Seq<u8>, CosValue)>) -> Seq<char> {
    match dict_lookup(d, lit("T")) {
        Some(CosValue::Str(s)) => utf8_lossy(s),
        _ => Seq::empty(),
    }
}

/// The field's `/T` text (see `title_text`).
pub fn get_field_name(field_dict: &CosDictionary) -> (r: String)
    ensures r@ == title_text(field_dict@),
{
    match field_dict.get(&CosName::named("T")) {
        Some(CosObject::String(s)) => from_utf8_lossy(s.as_slice()),
        _ => String::new(),
    }
}

} // verus!

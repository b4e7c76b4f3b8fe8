//! Writing destinations: the `[page /Fit ...]` array of a destination, and
//! the action dictionaries for a remote go-to and a URI. Coordinates come
//! as the text of real numbers.

use vstd::prelude::*;
use crate::bytes::{clone_bytes, lit};
use crate::cos::{CosDictionary, CosName, CosObject, CosValue, ObjectId, dict_insert, view_objs};

verus! {

/// How to fit the destination page into the window, each coordinate as the
/// text of a real number.
pub enum FitModeText {
    /// `/Fit`
    Fit,
    /// `/FitH` with an optional top.
    FitH(Option<Vec<u8>>),
    /// `/FitV` with an optional left.
    FitV(Option<Vec<u8>>),
    /// `/FitR left bottom right top`
    FitR(Vec<u8>, Vec<u8>, Vec<u8>, Vec<u8>),
    /// `/FitB`
    FitB,
    /// `/FitBH` with an optional top.
    FitBH(Option<Vec<u8>>),
    /// `/FitBV` with an optional left.
    FitBV(Option<Vec<u8>>),
    /// `/XYZ left top zoom`, each `null` when absent.
    XYZ(Option<Vec<u8>>, Option<Vec<u8>>, Option<Vec<u8>>),
}

/// A name value.
pub open spec fn name_val(s: &str) -> CosValue {
    CosValue::Name(lit(s))
}

/// An optional coordinate written only when present.
pub open spec fn opt_reals(o: Option<Vec<u8>>) -> Seq<CosValue> {
    match o {
        Some(t) => seq![CosValue::Real(t@)],
        None => Seq::empty(),
    }
}

/// An optional coordinate, `null` when absent.
pub open spec fn real_or_null(o: Option<Vec<u8>>) -> CosValue {
    match o {
        Some(t) => CosValue::Real(t@),
        None => CosValue::Null,
    }
}

/// The items after the page: the fit name and its coordinates.
pub open spec fn fit_entries(f: FitModeText) -> Seq<CosValue> {
    match f {
        FitModeText::Fit => seq![name_val("Fit")],
        FitModeText::FitH(t) => seq![name_val("FitH")] + opt_reals(t),
        FitModeText::FitV(l) => seq![name_val("FitV")] + opt_reals(l),
        FitModeText::FitR(l, b, r, t) => seq![name_val("FitR"), CosValue::Real(l@), CosValue::Real(b@), CosValue::Real(r@), CosValue::Real(t@)],
        FitModeText::FitB => seq![name_val("FitB")],
        FitModeText::FitBH(t) => seq![name_val("FitBH")] + opt_reals(t),
        FitModeText::FitBV(l) => seq![name_val("FitBV")] + opt_reals(l),
        FitModeText::XYZ(l, t, z) => seq![name_val("XYZ"), real_or_null(l), real_or_null(t), real_or_null(z)],
    }
}

/// A destination array: the page (a reference, `null` when unknown), then
/// the fit.
pub open spec fn dest_entries(page: Option<ObjectId>, f: FitModeText) -> Seq<CosValue> {
    seq![match page {
        Some(id) => CosValue::Ref(id.object_number, id.generation),
        None => CosValue::Null,
    }] + fit_entries(f)
}

/// The action dictionary of a go-to into another file.
pub open spec fn remote_action_entries(file: Seq<u8>, page: Option<ObjectId>, f: FitModeText) -> Seq<(Seq<u8>, CosValue)> {
    dict_insert(dict_insert(dict_insert(dict_insert(Seq::empty(),
        lit("Type"), name_val("Action")), lit("S"), name_val("GoToR")),
        lit("F"), CosValue::Str(file)), lit("D"), CosValue::Array(dest_entries(page, f)))
}

/// The action dictionary of a URI.
pub open spec fn uri_action_entries(uri: Seq<u8>) -> Seq<(Seq<u8>, CosValue)> {
    dict_insert(dict_insert(dict_insert(Seq::empty(),
        lit("Type"), name_val("Action")), lit("S"), name_val("URI")), lit("URI"), CosValue::Str(uri))
}

/// Appends `o`.
fn push_obj(arr: &mut Vec<CosObject>, o: CosObject)
    ensures view_objs(final(arr)@) == view_objs(old(arr)@).push(o@),
{
    let ghost a0 = arr@;
    arr.push(o);
    proof { assert(arr@.drop_last() =~= a0); }
}

/// A name object.
fn name_obj(s: &str) -> (r: CosObject)
    ensures r@ == name_val(s),
{
    CosObject::Name(CosName::named(s))
}

/// Appends an optional coordinate when present.
fn push_opt(arr: &mut Vec<CosObject>, o: &Option<Vec<u8>>)
    ensures view_objs(final(arr)@) == view_objs(old(arr)@) + opt_reals(*o),
{
    match o {
        Some(t) => {
            push_obj(arr, CosObject::Real(clone_bytes(t.as_slice())));
            proof { assert(view_objs(old(arr)@).push(CosValue::Real(t@)) =~= view_objs(old(arr)@) + opt_reals(*o)); }
        }
        None => {
            proof { assert(view_objs(arr@) + opt_reals(*o) =~= view_objs(arr@)); }
        }
    }
}

/// An optional coordinate object, `null` when absent.
fn real_or_null_obj(o: &Option<Vec<u8>>) -> (r: CosObject)
    ensures r@ == real_or_null(*o),
{
    match o {
        Some(t) => CosObject::Real(clone_bytes(t.as_slice())),
        None => CosObject::Null,
    }
}

/// The items of a destination array (see `dest_entries`).
fn dest_items(page: Option<ObjectId>, fit: &FitModeText) -> (r: Vec<CosObject>)
    ensures view_objs(r@) == dest_entries(page, *fit),
{
    let mut arr: Vec<CosObject> = Vec::new();
    let first = match page {
        Some(id) => CosObject::Reference(id),
        None => CosObject::Null,
    };
    push_obj(&mut arr, first);
    let ghost head = view_objs(arr@);
    match fit {
        FitModeText::Fit => push_obj(&mut arr, name_obj("Fit")),
        FitModeText::FitH(t) => {
            push_obj(&mut arr, name_obj("FitH"));
            push_opt(&mut arr, t);
        }
        FitModeText::FitV(l) => {
            push_obj(&mut arr, name_obj("FitV"));
            push_opt(&mut arr, l);
        }
        FitModeText::FitR(l, b, r, t) => {
            push_obj(&mut arr, name_obj("FitR"));
            push_obj(&mut arr, CosObject::Real(clone_bytes(l.as_slice())));
            push_obj(&mut arr, CosObject::Real(clone_bytes(b.as_slice())));
            push_obj(&mut arr, CosObject::Real(clone_bytes(r.as_slice())));
            push_obj(&mut arr, CosObject::Real(clone_bytes(t.as_slice())));
        }
        FitModeText::FitB => push_obj(&mut arr, name_obj("FitB")),
        FitModeText::FitBH(t) => {
            push_obj(&mut arr, name_obj("FitBH"));
            push_opt(&mut arr, t);
        }
        FitModeText::FitBV(l) => {
            push_obj(&mut arr, name_obj("FitBV"));
            push_opt(&mut arr, l);
        }
        FitModeText::XYZ(l, t, z) => {
            push_obj(&mut arr, name_obj("XYZ"));
            push_obj(&mut arr, real_or_null_obj(l));
            push_obj(&mut arr, real_or_null_obj(t));
            push_obj(&mut arr, real_or_null_obj(z));
        }
    }
    proof { assert(view_objs(arr@) =~= dest_entries(page, *fit)); }
    arr
}

/// The destination array `[page fit coordinates...]` (see `dest_entries`);
/// the page is `null` when its id is unknown.
pub fn destination_array(page: Option<ObjectId>, fit: &FitModeText) -> (r: CosObject)
    ensures r@ == CosValue::Array(dest_entries(page, *fit)),
{
    CosObject::Array(dest_items(page, fit))
}

/// The action dictionary of a go-to into the file `file` (see
/// `remote_action_entries`).
pub fn remote_action(file: &[u8], page: Option<ObjectId>, fit: &FitModeText) -> (r: CosObject)
    ensures r@ == CosValue::Dict(remote_action_entries(file@, page, *fit)),
{
    let mut dict = CosDictionary::new();
    dict.insert(CosName::type_key(), name_obj("Action"));
    dict.insert(CosName::named("S"), name_obj("GoToR"));
    dict.insert(CosName::named("F"), CosObject::String(clone_bytes(file)));
    dict.insert(CosName::named("D"), destination_array(page, fit));
    CosObject::Dictionary(dict)
}

/// The action dictionary of a URI (see `uri_action_entries`).
pub fn uri_action(uri: &[u8]) -> (r: CosObject)
    ensures r@ == CosValue::Dict(uri_action_entries(uri@)),
{
    let mut dict = CosDictionary::new();
    dict.insert(CosName::type_key(), name_obj("Action"));
    dict.insert(CosName::named("S"), name_obj("URI"));
    dict.insert(CosName::named("URI"), CosObject::String(clone_bytes(uri)));
    CosObject::Dictionary(dict)
}

} // verus!

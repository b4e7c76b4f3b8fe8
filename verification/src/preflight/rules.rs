//! The PDF/A-1b rules. Each reports its findings in the order of the stored
//! objects.

use vstd::prelude::*;
use crate::bytes::{eq_str, lit};
use crate::cos::{CosDictionary, CosName, CosObject, CosValue, ObjectId, dict_lookup, view_obj, view_objs,
    lemma_view_objs};
use crate::document::{Document, resolve_spec, store_find, store_view};
use crate::preflight::{Finding, ValidationError, append_errors, errors_view, finding, make_obj_msg, obj_msg};
use crate::text::{decimal_text, digits_text, from_utf8_lossy, push_digits, push_str, utf8_lossy};

verus! {

/// A PDF/A check on a whole document.
pub trait PreflightRule {
    /// What the rule reports for `doc`.
    spec fn findings(&self, doc: &Document) -> Seq<Finding>;

    fn validate(&self, doc: &Document) -> (r: Vec<ValidationError>)
        ensures errors_view(r@) == self.findings(doc);

    /// The rule's identifier (such as `1.0`).
    fn id(&self) -> &'static str {
        ""
    }
}

// ---------------------------------------------------------------------------
// Checks on single objects
// ---------------------------------------------------------------------------

pub open spec fn has_key(d: Seq<(Seq<u8>, CosValue)>, k: &str) -> bool {
    dict_lookup(d, lit(k)) is Some
}

pub open spec fn name_entry_is(d: Seq<(Seq<u8>, CosValue)>, k: &str, v: &str) -> bool {
    dict_lookup(d, lit(k)) == Some(CosValue::Name(lit(v)))
}

/// The filter names a rule looks for.
#[derive(Clone, Copy)]
pub enum FilterSet {
    Lzw,
    Deprecated,
}

pub open spec fn in_filter_set(s: FilterSet, n: Seq<u8>) -> bool {
    match s {
        FilterSet::Lzw => n == lit("LZWDecode") || n == lit("LZW"),
        FilterSet::Deprecated => n == lit("ASCII85Decode") || n == lit("ASCIIHexDecode"),
    }
}

pub open spec fn is_name_in(s: FilterSet, v: CosValue) -> bool {
    match v {
        CosValue::Name(n) => in_filter_set(s, n),
        _ => false,
    }
}

/// A `/Filter` entry names a filter of the set, alone or in an array.
pub open spec fn filter_uses(e: Option<CosValue>, s: FilterSet) -> bool {
    match e {
        Some(CosValue::Name(n)) => in_filter_set(s, n),
        Some(CosValue::Array(a)) => exists|k: int| 0 <= k < a.len() && is_name_in(s, #[trigger] a[k]),
        _ => false,
    }
}

proof fn lemma_filter_uses_array(a: Seq<CosValue>, s: FilterSet, k: int)
    requires 0 <= k < a.len(), is_name_in(s, a[k]),
    ensures filter_uses(Some(CosValue::Array(a)), s),
{
    let e = Some(CosValue::Array(a));
    assert(e matches Some(CosValue::Array(b)) && b == a);
    assert(exists|j: int| 0 <= j < a.len() && is_name_in(s, #[trigger] a[j]));
    assert(filter_uses(e, s) == (exists|j: int| 0 <= j < a.len() && is_name_in(s, #[trigger] a[j])));
}

pub open spec fn is_forbidden_action(n: Seq<u8>) -> bool {
    n == lit("Launch") || n == lit("Sound") || n == lit("Movie") || n == lit("Hide") || n == lit("ResetForm")
        || n == lit("ImportData")
}

pub open spec fn is_forbidden_color_space(n: Seq<u8>) -> bool {
    n == lit("CalRGB") || n == lit("CalGray") || n == lit("Lab")
}

pub open spec fn one_if(b: bool, f: Finding) -> Seq<Finding> {
    if b { seq![f] } else { Seq::empty() }
}

pub open spec fn color_space_finding(n: Seq<u8>, id: ObjectId) -> Seq<Finding> {
    one_if(is_forbidden_color_space(n), ("12.0"@,
        "PDF/A-1b forbids "@ + utf8_lossy(n) + obj_msg(" color space (Obj "@, id, ")."@)))
}

/// Color space findings for the names of an array, in order.
pub open spec fn color_space_array(a: Seq<CosValue>, id: ObjectId) -> Seq<Finding>
    decreases a.len(),
{
    if a.len() == 0 {
        Seq::empty()
    } else {
        color_space_array(a.drop_last(), id) + match a.last() {
            CosValue::Name(n) => color_space_finding(n, id),
            _ => Seq::empty(),
        }
    }
}

pub open spec fn color_space_findings(e: Option<CosValue>, id: ObjectId) -> Seq<Finding> {
    match e {
        Some(CosValue::Name(n)) => color_space_finding(n, id),
        Some(CosValue::Array(a)) => color_space_array(a, id),
        _ => Seq::empty(),
    }
}

pub open spec fn opi_findings(d: Seq<(Seq<u8>, CosValue)>, id: ObjectId) -> Seq<Finding> {
    let f = ("5.0"@, obj_msg("PDF/A-1b forbids OPI references (Obj "@, id, ")."@));
    one_if(has_key(d, "OPI"), f) + one_if(has_key(d, "OPIversion"), f)
}

pub open spec fn transparency_key_finding(d: Seq<(Seq<u8>, CosValue)>, k: &str, id: ObjectId) -> Seq<Finding> {
    one_if(has_key(d, k), ("8.0"@,
        "PDF/A-1b forbids transparency (key \""@ + k@ + obj_msg("\" in Obj "@, id, ")."@)))
}

pub open spec fn is_symbolic(d: Seq<(Seq<u8>, CosValue)>) -> bool {
    match dict_lookup(d, lit("Flags")) {
        Some(CosValue::Integer(f)) => (f as i64) & 4 != 0,
        _ => false,
    }
}

pub open spec fn annot_flags(d: Seq<(Seq<u8>, CosValue)>) -> i64 {
    match dict_lookup(d, lit("F")) {
        Some(CosValue::Integer(f)) => f as i64,
        _ => 0,
    }
}

pub open spec fn is_transparency_group(d: Seq<(Seq<u8>, CosValue)>) -> bool {
    match dict_lookup(d, lit("Group")) {
        Some(CosValue::Dict(g)) => name_entry_is(g, "S", "Transparency"),
        _ => false,
    }
}

/// The per-object checks.
#[derive(Clone, Copy)]
pub enum ObjectCheck {
    Filters(FilterSet),
    JavaScript,
    Opi,
    FontEmbedding,
    Transparency,
    Annotation,
    LaunchActions,
    ColorSpace,
    PageActions,
}

/// What a check reports for one stored object.
pub open spec fn object_findings(c: ObjectCheck, id: ObjectId, v: CosValue) -> Seq<Finding> {
    match c {
        ObjectCheck::Filters(s) => match v {
            CosValue::Stream(d, _) => one_if(filter_uses(dict_lookup(d, lit("Filter")), s), match s {
                FilterSet::Lzw => ("2.0"@, obj_msg("PDF/A-1b forbids LZW compression (Obj "@, id, ")."@)),
                FilterSet::Deprecated => ("3.0"@, obj_msg("PDF/A-1b discourages deprecated filters (Obj "@, id, ")."@)),
            }),
            _ => Seq::empty(),
        },
        ObjectCheck::JavaScript => match v {
            CosValue::Dict(d) =>
                one_if(has_key(d, "JavaScript") || has_key(d, "JS"),
                    ("4.0"@, obj_msg("PDF/A-1b forbids JavaScript. Found JS entry in Obj "@, id, ""@)))
                + one_if(name_entry_is(d, "S", "JavaScript"),
                    ("4.1"@, obj_msg("PDF/A-1b forbids JavaScript Actions (Obj "@, id, ")."@))),
            _ => Seq::empty(),
        },
        ObjectCheck::Opi => match v {
            CosValue::Dict(d) => opi_findings(d, id),
            CosValue::Stream(d, _) => opi_findings(d, id),
            _ => Seq::empty(),
        },
        ObjectCheck::FontEmbedding => match v {
            CosValue::Dict(d) => one_if(
                name_entry_is(d, "Type", "FontDescriptor") && !has_key(d, "FontFile") && !has_key(d, "FontFile2")
                    && !has_key(d, "FontFile3") && !is_symbolic(d),
                ("7.0"@, obj_msg("PDF/A-1b requires embedded fonts. FontDescriptor "@, id, " has no FontFile."@))),
            _ => Seq::empty(),
        },
        ObjectCheck::Transparency => match v {
            CosValue::Stream(d, _) =>
                transparency_key_finding(d, "SMask", id) + transparency_key_finding(d, "SMaskInData", id)
                + transparency_key_finding(d, "ca", id) + transparency_key_finding(d, "CA", id)
                + transparency_key_finding(d, "BM", id),
            CosValue::Dict(d) => one_if(is_transparency_group(d),
                ("8.1"@, obj_msg("PDF/A-1b forbids transparency groups (Obj "@, id, ")."@))),
            _ => Seq::empty(),
        },
        ObjectCheck::Annotation => match v {
            CosValue::Dict(d) => one_if(name_entry_is(d, "Type", "Annot") && annot_flags(d) & 4 == 0,
                ("9.0"@, obj_msg("PDF/A-1b requires annotation print flag (Obj "@, id, ")."@))),
            _ => Seq::empty(),
        },
        ObjectCheck::LaunchActions => match v {
            CosValue::Dict(d) => match dict_lookup(d, lit("S")) {
                Some(CosValue::Name(n)) => one_if(is_forbidden_action(n), ("11.0"@,
                    "PDF/A-1b forbids "@ + utf8_lossy(n) + obj_msg(" actions (Obj "@, id, ")."@))),
                _ => Seq::empty(),
            },
            _ => Seq::empty(),
        },
        ObjectCheck::ColorSpace => match v {
            CosValue::Dict(d) => color_space_findings(dict_lookup(d, lit("ColorSpace")), id),
            CosValue::Stream(d, _) => color_space_findings(dict_lookup(d, lit("ColorSpace")), id),
            _ => Seq::empty(),
        },
        ObjectCheck::PageActions => match v {
            CosValue::Dict(d) => one_if(name_entry_is(d, "Type", "Page") && has_key(d, "AA"),
                ("13.1"@, obj_msg("PDF/A-1b forbids page-level additional actions (Page "@, id, ")."@))),
            _ => Seq::empty(),
        },
    }
}

/// A check's findings over stored objects, in order.
pub open spec fn each_object(objs: Seq<(ObjectId, CosValue)>, c: ObjectCheck) -> Seq<Finding>
    decreases objs.len(),
{
    if objs.len() == 0 {
        Seq::empty()
    } else {
        each_object(objs.drop_last(), c) + object_findings(c, objs.last().0, objs.last().1)
    }
}

fn single(rule_id: &'static str, message: String) -> (r: Vec<ValidationError>)
    ensures errors_view(r@) == seq![(rule_id@, message@)],
{
    let mut v: Vec<ValidationError> = Vec::new();
    v.push(finding(rule_id, message));
    proof { assert(errors_view(v@) =~= seq![(rule_id@, message@)]); }
    v
}

fn none() -> (r: Vec<ValidationError>)
    ensures errors_view(r@) == Seq::<Finding>::empty(),
{
    let v: Vec<ValidationError> = Vec::new();
    proof { assert(errors_view(v@) =~= Seq::<Finding>::empty()); }
    v
}

fn one_if_exec(b: bool, rule_id: &'static str, message: String) -> (r: Vec<ValidationError>)
    ensures errors_view(r@) == one_if(b, (rule_id@, message@)),
{
    if b { single(rule_id, message) } else { none() }
}

fn has_entry(d: &CosDictionary, k: &str) -> (r: bool)
    ensures r == has_key(d@, k),
{
    d.contains_key(&CosName::named(k))
}

fn name_is(d: &CosDictionary, k: &str, v: &str) -> (r: bool)
    ensures r == name_entry_is(d@, k, v),
{
    match d.get(&CosName::named(k)) {
        Some(CosObject::Name(n)) => eq_str(n.as_bytes(), v),
        _ => false,
    }
}

fn in_set(s: FilterSet, n: &[u8]) -> (r: bool)
    ensures r == in_filter_set(s, n@),
{
    match s {
        FilterSet::Lzw => eq_str(n, "LZWDecode") || eq_str(n, "LZW"),
        FilterSet::Deprecated => eq_str(n, "ASCII85Decode") || eq_str(n, "ASCIIHexDecode"),
    }
}

fn filter_uses_exec(d: &CosDictionary, s: FilterSet) -> (r: bool)
    ensures r == filter_uses(dict_lookup(d@, lit("Filter")), s),
{
    match d.get(&CosName::filter()) {
        Some(CosObject::Name(n)) => in_set(s, n.as_bytes()),
        Some(CosObject::Array(arr)) => {
            proof { lemma_view_objs(arr@); }
            assert(dict_lookup(d@, lit("Filter")) == Some(CosValue::Array(view_objs(arr@))));
            let mut k: usize = 0;
            while k < arr.len()
                invariant
                    dict_lookup(d@, lit("Filter")) == Some(CosValue::Array(view_objs(arr@))),
                    k <= arr@.len(),
                    forall|j: int| 0 <= j < k ==> !is_name_in(s, #[trigger] view_objs(arr@)[j]),
                    view_objs(arr@).len() == arr@.len(),
                    forall|j: int| 0 <= j < arr@.len() ==> view_objs(arr@)[j] == view_obj(#[trigger] arr@[j]),
                decreases arr.len() - k,
            {
                match &arr[k] {
                    CosObject::Name(n) => {
                        if in_set(s, n.as_bytes()) {
                            let ghost a = view_objs(arr@);
                            assert(0 <= k < a.len() && is_name_in(s, a[k as int]));
                            proof { lemma_filter_uses_array(a, s, k as int); }
                            return true;
                        }
                    }
                    _ => {}
                }
                k += 1;
            }
            false
        }
        _ => false,
    }
}

fn opi_exec(d: &CosDictionary, id: ObjectId) -> (r: Vec<ValidationError>)
    ensures errors_view(r@) == opi_findings(d@, id),
{
    let mut v = one_if_exec(has_entry(d, "OPI"), "5.0", make_obj_msg("PDF/A-1b forbids OPI references (Obj ", id, ")."));
    append_errors(&mut v, one_if_exec(has_entry(d, "OPIversion"), "5.0",
        make_obj_msg("PDF/A-1b forbids OPI references (Obj ", id, ").")));
    v
}

fn transparency_key_exec(d: &CosDictionary, k: &str, id: ObjectId) -> (r: Vec<ValidationError>)
    ensures errors_view(r@) == transparency_key_finding(d@, k, id),
{
    if has_entry(d, k) {
        let mut m = String::new();
        push_str(&mut m, "PDF/A-1b forbids transparency (key \"");
        push_str(&mut m, k);
        let tail = make_obj_msg("\" in Obj ", id, ").");
        push_str(&mut m, tail.as_str());
        proof {
            assert(m@ =~= "PDF/A-1b forbids transparency (key \""@ + k@ + obj_msg("\" in Obj "@, id, ")."@));
        }
        single("8.0", m)
    } else {
        none()
    }
}

fn name_then_obj_msg(prefix: &str, n: &[u8], mid: &str, id: ObjectId, suffix: &str) -> (r: String)
    ensures r@ == prefix@ + utf8_lossy(n@) + obj_msg(mid@, id, suffix@),
{
    let mut m = String::new();
    push_str(&mut m, prefix);
    let name = from_utf8_lossy(n);
    push_str(&mut m, name.as_str());
    let tail = make_obj_msg(mid, id, suffix);
    push_str(&mut m, tail.as_str());
    proof { assert(m@ =~= prefix@ + utf8_lossy(n@) + obj_msg(mid@, id, suffix@)); }
    m
}

fn color_space_name(n: &[u8], id: ObjectId) -> (r: Vec<ValidationError>)
    ensures errors_view(r@) == color_space_finding(n@, id),
{
    let bad = eq_str(n, "CalRGB") || eq_str(n, "CalGray") || eq_str(n, "Lab");
    if bad {
        single("12.0", name_then_obj_msg("PDF/A-1b forbids ", n, " color space (Obj ", id, ")."))
    } else {
        none()
    }
}

fn color_space_exec(e: Option<&CosObject>, id: ObjectId) -> (r: Vec<ValidationError>)
    ensures
        errors_view(r@) == color_space_findings(match e { Some(o) => Some(o@), None => None }, id),
{
    match e {
        Some(CosObject::Name(n)) => color_space_name(n.as_bytes(), id),
        Some(CosObject::Array(arr)) => {
            let ghost a = view_objs(arr@);
            proof { lemma_view_objs(arr@); }
            let mut v = none();
            let mut k: usize = 0;
            while k < arr.len()
                invariant
                    k <= arr@.len(),
                    a == view_objs(arr@),
                    a.len() == arr@.len(),
                    forall|j: int| 0 <= j < arr@.len() ==> a[j] == view_obj(#[trigger] arr@[j]),
                    errors_view(v@) == color_space_array(a.take(k as int), id),
                decreases arr.len() - k,
            {
                proof { assert(a.take(k + 1).drop_last() =~= a.take(k as int)); }
                match &arr[k] {
                    CosObject::Name(n) => {
                        append_errors(&mut v, color_space_name(n.as_bytes(), id));
                    }
                    _ => {}
                }
                proof {
                    assert(a.take(k + 1).last() == a[k as int]);
                    assert(errors_view(v@) =~= color_space_array(a.take(k + 1), id));
                }
                k += 1;
            }
            proof { assert(a.take(arr@.len() as int) =~= a); }
            v
        }
        _ => none(),
    }
}

/// What a check reports for one stored object.
fn check_object(c: ObjectCheck, id: ObjectId, obj: &CosObject) -> (r: Vec<ValidationError>)
    ensures errors_view(r@) == object_findings(c, id, obj@),
{
    match c {
        ObjectCheck::Filters(s) => match obj {
            CosObject::Stream(st) => {
                let hit = filter_uses_exec(&st.dictionary, s);
                match s {
                    FilterSet::Lzw => one_if_exec(hit, "2.0",
                        make_obj_msg("PDF/A-1b forbids LZW compression (Obj ", id, ").")),
                    FilterSet::Deprecated => one_if_exec(hit, "3.0",
                        make_obj_msg("PDF/A-1b discourages deprecated filters (Obj ", id, ").")),
                }
            }
            _ => none(),
        },
        ObjectCheck::JavaScript => match obj {
            CosObject::Dictionary(d) => {
                let mut v = one_if_exec(has_entry(d, "JavaScript") || has_entry(d, "JS"), "4.0",
                    make_obj_msg("PDF/A-1b forbids JavaScript. Found JS entry in Obj ", id, ""));
                append_errors(&mut v, one_if_exec(name_is(d, "S", "JavaScript"), "4.1",
                    make_obj_msg("PDF/A-1b forbids JavaScript Actions (Obj ", id, ").")));
                v
            }
            _ => none(),
        },
        ObjectCheck::Opi => match obj {
            CosObject::Dictionary(d) => opi_exec(d, id),
            CosObject::Stream(st) => opi_exec(&st.dictionary, id),
            _ => none(),
        },
        ObjectCheck::FontEmbedding => match obj {
            CosObject::Dictionary(d) => {
                let symbolic = match d.get(&CosName::named("Flags")) {
                    Some(CosObject::Integer(f)) => *f & 4 != 0,
                    _ => false,
                };
                let hit = name_is(d, "Type", "FontDescriptor") && !has_entry(d, "FontFile") && !has_entry(d, "FontFile2")
                    && !has_entry(d, "FontFile3") && !symbolic;
                one_if_exec(hit, "7.0",
                    make_obj_msg("PDF/A-1b requires embedded fonts. FontDescriptor ", id, " has no FontFile."))
            }
            _ => none(),
        },
        ObjectCheck::Transparency => match obj {
            CosObject::Stream(st) => {
                let d = &st.dictionary;
                let mut v = transparency_key_exec(d, "SMask", id);
                append_errors(&mut v, transparency_key_exec(d, "SMaskInData", id));
                append_errors(&mut v, transparency_key_exec(d, "ca", id));
                append_errors(&mut v, transparency_key_exec(d, "CA", id));
                append_errors(&mut v, transparency_key_exec(d, "BM", id));
                v
            }
            CosObject::Dictionary(d) => {
                let group = match d.get(&CosName::named("Group")) {
                    Some(CosObject::Dictionary(g)) => name_is(g, "S", "Transparency"),
                    _ => false,
                };
                one_if_exec(group, "8.1", make_obj_msg("PDF/A-1b forbids transparency groups (Obj ", id, ")."))
            }
            _ => none(),
        },
        ObjectCheck::Annotation => match obj {
            CosObject::Dictionary(d) => {
                let flags: i64 = match d.get(&CosName::named("F")) {
                    Some(CosObject::Integer(f)) => *f,
                    _ => 0,
                };
                one_if_exec(name_is(d, "Type", "Annot") && flags & 4 == 0, "9.0",
                    make_obj_msg("PDF/A-1b requires annotation print flag (Obj ", id, ")."))
            }
            _ => none(),
        },
        ObjectCheck::LaunchActions => match obj {
            CosObject::Dictionary(d) => match d.get(&CosName::named("S")) {
                Some(CosObject::Name(n)) => {
                    let b = n.as_bytes();
                    let bad = eq_str(b, "Launch") || eq_str(b, "Sound") || eq_str(b, "Movie") || eq_str(b, "Hide")
                        || eq_str(b, "ResetForm") || eq_str(b, "ImportData");
                    if bad {
                        single("11.0", name_then_obj_msg("PDF/A-1b forbids ", b, " actions (Obj ", id, ")."))
                    } else {
                        none()
                    }
                }
                _ => none(),
            },
            _ => none(),
        },
        ObjectCheck::ColorSpace => match obj {
            CosObject::Dictionary(d) => color_space_exec(d.get(&CosName::named("ColorSpace")), id),
            CosObject::Stream(st) => color_space_exec(st.dictionary.get(&CosName::named("ColorSpace")), id),
            _ => none(),
        },
        ObjectCheck::PageActions => match obj {
            CosObject::Dictionary(d) => one_if_exec(name_is(d, "Type", "Page") && has_entry(d, "AA"), "13.1",
                make_obj_msg("PDF/A-1b forbids page-level additional actions (Page ", id, ").")),
            _ => none(),
        },
    }
}

/// Runs a check over every stored object, in order.
fn scan(doc: &Document, c: ObjectCheck) -> (r: Vec<ValidationError>)
    ensures errors_view(r@) == each_object(doc.objects@, c),
{
    let objs = doc.objects.entries();
    let ghost sv = store_view(objs@);
    let mut v = none();
    let mut k: usize = 0;
    while k < objs.len()
        invariant
            k <= objs@.len(),
            sv == store_view(objs@),
            sv == doc.objects@,
            errors_view(v@) == each_object(sv.take(k as int), c),
        decreases objs.len() - k,
    {
        proof { assert(sv.take(k + 1).drop_last() =~= sv.take(k as int)); }
        let (id, obj) = &objs[k];
        append_errors(&mut v, check_object(c, *id, obj));
        proof { assert(errors_view(v@) =~= each_object(sv.take(k + 1), c)); }
        k += 1;
    }
    proof { assert(sv.take(objs@.len() as int) =~= sv); }
    v
}

// ---------------------------------------------------------------------------
// The rules
// ---------------------------------------------------------------------------

/// 1.0: no `/Encrypt` in the trailer.
pub struct NoEncryptionRule;

/// 2.0: no LZW-compressed stream.
pub struct NoLzwFilterRule;

/// 3.0: no ASCII85 or ASCIIHex stream.
pub struct NoDeprecatedFiltersRule;

/// 4.0, 4.1: no JavaScript entries or actions.
pub struct NoJavaScriptRule;

/// 5.0: no OPI references.
pub struct NoOpiRule;

/// 6.0, 6.1: the catalog has XMP metadata, as a stream.
pub struct MetadataRule;

/// 7.0: non-symbolic fonts are embedded.
pub struct FontEmbeddingRule;

/// 8.0, 8.1: no soft masks, blending keys or transparency groups.
pub struct NoTransparencyRule;

/// 9.0: annotations carry the print flag.
pub struct AnnotationRule;

/// 10.0 - 10.2: the catalog has output intents with profiles.
pub struct OutputIntentRule;

/// 11.0: no launch, sound, movie, hide, reset-form or import-data actions.
pub struct NoLaunchActionsRule;

/// 12.0: no CalRGB, CalGray or Lab color spaces.
pub struct ColorSpaceRule;

/// 13.0, 13.1: no catalog open action, no page-level additional actions.
pub struct PageRule;

/// 14.0: embedded files (reports nothing yet).
pub struct EmbeddedFileRule;

pub open spec fn encryption_findings(doc: &Document) -> Seq<Finding> {
    one_if(has_key(doc.xref.trailer@, "Encrypt"), ("1.0"@, "PDF/A-1b documents must not be encrypted."@))
}

pub open spec fn metadata_findings(doc: &Document) -> Seq<Finding> {
    match doc.catalog_dict() {
        None => seq![("6.0"@, "Missing document catalog."@)],
        Some(cat) => match dict_lookup(cat, lit("Metadata")) {
            None => seq![("6.0"@, "PDF/A-1b requires XMP Metadata in the document catalog."@)],
            Some(md) => match resolve_spec(doc.objects@, md, 15) {
                Some(CosValue::Stream(_, _)) => Seq::empty(),
                _ => seq![("6.1"@, "Catalog /Metadata must be a stream."@)],
            },
        },
    }
}

pub open spec fn intent_findings(a: Seq<CosValue>) -> Seq<Finding>
    decreases a.len(),
{
    if a.len() == 0 {
        Seq::empty()
    } else {
        intent_findings(a.drop_last()) + match a.last() {
            CosValue::Dict(d) => one_if(!has_key(d, "DestOutputProfile"), ("10.1"@,
                "OutputIntent["@ + decimal_text(a.len() - 1) + "] missing /DestOutputProfile."@)),
            _ => Seq::empty(),
        }
    }
}

pub open spec fn output_intent_findings(doc: &Document) -> Seq<Finding> {
    match doc.catalog_dict() {
        None => Seq::empty(),
        Some(cat) => match dict_lookup(cat, lit("OutputIntents")) {
            Some(CosValue::Array(a)) => if a.len() > 0 {
                intent_findings(a)
            } else {
                seq![("10.2"@, "OutputIntents must be an array."@)]
            },
            Some(_) => seq![("10.2"@, "OutputIntents must be an array."@)],
            None => seq![("10.0"@, "PDF/A-1b requires /OutputIntents in the catalog."@)],
        },
    }
}

pub open spec fn page_findings(doc: &Document) -> Seq<Finding> {
    match doc.catalog_dict() {
        None => Seq::empty(),
        Some(cat) => one_if(has_key(cat, "OpenAction"), ("13.0"@, "PDF/A-1b forbids /OpenAction in the catalog."@))
            + each_object(doc.objects@, ObjectCheck::PageActions),
    }
}

impl PreflightRule for NoEncryptionRule {
    open spec fn findings(&self, doc: &Document) -> Seq<Finding> {
        encryption_findings(doc)
    }

    fn validate(&self, doc: &Document) -> (r: Vec<ValidationError>) {
        one_if_exec(has_entry(doc.trailer(), "Encrypt"), "1.0", "PDF/A-1b documents must not be encrypted.".to_owned())
    }

    fn id(&self) -> &'static str {
        "1.0"
    }
}

impl PreflightRule for NoLzwFilterRule {
    open spec fn findings(&self, doc: &Document) -> Seq<Finding> {
        each_object(doc.objects@, ObjectCheck::Filters(FilterSet::Lzw))
    }

    fn validate(&self, doc: &Document) -> (r: Vec<ValidationError>) {
        scan(doc, ObjectCheck::Filters(FilterSet::Lzw))
    }

    fn id(&self) -> &'static str {
        "2.0"
    }
}

impl PreflightRule for NoDeprecatedFiltersRule {
    open spec fn findings(&self, doc: &Document) -> Seq<Finding> {
        each_object(doc.objects@, ObjectCheck::Filters(FilterSet::Deprecated))
    }

    fn validate(&self, doc: &Document) -> (r: Vec<ValidationError>) {
        scan(doc, ObjectCheck::Filters(FilterSet::Deprecated))
    }

    fn id(&self) -> &'static str {
        "3.0"
    }
}

impl PreflightRule for NoJavaScriptRule {
    open spec fn findings(&self, doc: &Document) -> Seq<Finding> {
        each_object(doc.objects@, ObjectCheck::JavaScript)
    }

    fn validate(&self, doc: &Document) -> (r: Vec<ValidationError>) {
        scan(doc, ObjectCheck::JavaScript)
    }

    fn id(&self) -> &'static str {
        "4.0"
    }
}

impl PreflightRule for NoOpiRule {
    open spec fn findings(&self, doc: &Document) -> Seq<Finding> {
        each_object(doc.objects@, ObjectCheck::Opi)
    }

    fn validate(&self, doc: &Document) -> (r: Vec<ValidationError>) {
        scan(doc, ObjectCheck::Opi)
    }

    fn id(&self) -> &'static str {
        "5.0"
    }
}

impl PreflightRule for MetadataRule {
    open spec fn findings(&self, doc: &Document) -> Seq<Finding> {
        metadata_findings(doc)
    }

    fn validate(&self, doc: &Document) -> (r: Vec<ValidationError>) {
        let catalog = match doc.catalog() {
            Some(c) => c,
            None => return single("6.0", "Missing document catalog.".to_owned()),
        };
        match catalog.get(&CosName::named("Metadata")) {
            None => single("6.0", "PDF/A-1b requires XMP Metadata in the document catalog.".to_owned()),
            Some(md) => match doc.objects.resolve(md) {
                Some(CosObject::Stream(_)) => none(),
                _ => single("6.1", "Catalog /Metadata must be a stream.".to_owned()),
            },
        }
    }

    fn id(&self) -> &'static str {
        "6.0"
    }
}

impl PreflightRule for FontEmbeddingRule {
    open spec fn findings(&self, doc: &Document) -> Seq<Finding> {
        each_object(doc.objects@, ObjectCheck::FontEmbedding)
    }

    fn validate(&self, doc: &Document) -> (r: Vec<ValidationError>) {
        scan(doc, ObjectCheck::FontEmbedding)
    }

    fn id(&self) -> &'static str {
        "7.0"
    }
}

/// `d` is a font descriptor dictionary with none of the three font-file
/// entries (`/FontFile`, `/FontFile2`, `/FontFile3`).
pub open spec fn unembedded_descriptor(d: Seq<(Seq<u8>, CosValue)>) -> bool {
    &&& dict_lookup(d, lit("Type")) == Some(CosValue::Name(lit("FontDescriptor")))
    &&& dict_lookup(d, lit("FontFile")) is None
    &&& dict_lookup(d, lit("FontFile2")) is None
    &&& dict_lookup(d, lit("FontFile3")) is None
}

/// The Symbolic flag of a font descriptor (bit 3 of `/Flags`, the value 4)
/// is set.
pub open spec fn symbolic_flag_set(d: Seq<(Seq<u8>, CosValue)>) -> bool {
    dict_lookup(d, lit("Flags")) matches Some(CosValue::Integer(f)) && (f as i64) & 4 != 0
}

/// The finding that names font descriptor `id` as not embedded.
pub open spec fn unembedded_finding(id: ObjectId) -> Finding {
    ("7.0"@, obj_msg("PDF/A-1b requires embedded fonts. FontDescriptor "@, id, " has no FontFile."@))
}

/// `f` names a stored font descriptor dictionary of `objs` that carries no
/// font program and is not symbolic.
pub open spec fn names_unembedded(objs: Seq<(ObjectId, CosValue)>, f: Finding) -> bool {
    exists|k: int| {
        &&& 0 <= k < objs.len()
        &&& #[trigger] objs[k].1 matches CosValue::Dict(d) && unembedded_descriptor(d) && !symbolic_flag_set(d)
        &&& f == unembedded_finding(objs[k].0)
    }
}

proof fn lemma_font_findings_sound(objs: Seq<(ObjectId, CosValue)>)
    ensures
        forall|i: int| 0 <= i < each_object(objs, ObjectCheck::FontEmbedding).len()
            ==> names_unembedded(objs, #[trigger] each_object(objs, ObjectCheck::FontEmbedding)[i]),
    decreases objs.len(),
{
    if objs.len() > 0 {
        let pre = objs.drop_last();
        lemma_font_findings_sound(pre);
        let e = each_object(objs, ObjectCheck::FontEmbedding);
        let ep = each_object(pre, ObjectCheck::FontEmbedding);
        let last = object_findings(ObjectCheck::FontEmbedding, objs.last().0, objs.last().1);
        assert(e == ep + last);
        assert forall|i: int| 0 <= i < e.len() implies names_unembedded(objs, #[trigger] e[i]) by {
            if i < ep.len() {
                assert(names_unembedded(pre, ep[i]));
                let k = choose|k: int| {
                    &&& 0 <= k < pre.len()
                    &&& #[trigger] pre[k].1 matches CosValue::Dict(d) && unembedded_descriptor(d) && !symbolic_flag_set(d)
                    &&& ep[i] == unembedded_finding(pre[k].0)
                };
                assert(pre[k] == objs[k]);
                assert(e[i] == ep[i]);
            } else {
                let k = objs.len() - 1;
                assert(objs[k] == objs.last());
                assert(e[i] == last[i - ep.len()]);
            }
        }
    }
}

proof fn lemma_font_findings_complete(objs: Seq<(ObjectId, CosValue)>, k: int)
    requires
        0 <= k < objs.len(),
        objs[k].1 matches CosValue::Dict(d) && unembedded_descriptor(d) && !symbolic_flag_set(d),
    ensures
        exists|i: int| 0 <= i < each_object(objs, ObjectCheck::FontEmbedding).len()
            && #[trigger] each_object(objs, ObjectCheck::FontEmbedding)[i] == unembedded_finding(objs[k].0),
    decreases objs.len(),
{
    let pre = objs.drop_last();
    let e = each_object(objs, ObjectCheck::FontEmbedding);
    let ep = each_object(pre, ObjectCheck::FontEmbedding);
    let last = object_findings(ObjectCheck::FontEmbedding, objs.last().0, objs.last().1);
    assert(e == ep + last);
    if k == objs.len() - 1 {
        assert(objs[k] == objs.last());
        assert(last == seq![unembedded_finding(objs[k].0)]);
        assert(e[ep.len() as int] == unembedded_finding(objs[k].0));
    } else {
        assert(pre[k] == objs[k]);
        lemma_font_findings_complete(pre, k);
        let i = choose|i: int| 0 <= i < ep.len() && #[trigger] ep[i] == unembedded_finding(pre[k].0);
        assert(e[i] == ep[i]);
    }
}

/// The embedded-font rule reports exactly the stored non-symbolic font
/// descriptors that carry no font program: each finding names a stored font
/// descriptor dictionary with none of `/FontFile`, `/FontFile2`,
/// `/FontFile3` and without the Symbolic flag; every such descriptor is
/// named by a finding;
/// and a document whose font descriptors all carry one of the three (an
/// embedded Type 1, TrueType or CFF program) passes.
pub proof fn lemma_font_embedding_rule(doc: &Document)
    ensures
        forall|i: int| 0 <= i < FontEmbeddingRule.findings(doc).len()
            ==> names_unembedded(doc.objects@, #[trigger] FontEmbeddingRule.findings(doc)[i]),
        forall|k: int| 0 <= k < doc.objects@.len() && (#[trigger] doc.objects@[k].1 matches CosValue::Dict(d)
            && unembedded_descriptor(d) && !symbolic_flag_set(d)) ==>
            exists|i: int| 0 <= i < FontEmbeddingRule.findings(doc).len()
                && #[trigger] FontEmbeddingRule.findings(doc)[i] == unembedded_finding(doc.objects@[k].0),
        (forall|k: int| 0 <= k < doc.objects@.len() ==> !(#[trigger] doc.objects@[k].1 matches CosValue::Dict(d)
            && unembedded_descriptor(d))) ==> FontEmbeddingRule.findings(doc).len() == 0,
{
    let objs = doc.objects@;
    lemma_font_findings_sound(objs);
    assert forall|k: int| 0 <= k < objs.len() && (#[trigger] objs[k].1 matches CosValue::Dict(d)
        && unembedded_descriptor(d) && !symbolic_flag_set(d)) implies
        exists|i: int| 0 <= i < FontEmbeddingRule.findings(doc).len()
            && #[trigger] FontEmbeddingRule.findings(doc)[i] == unembedded_finding(objs[k].0) by {
        assert(FontEmbeddingRule.findings(doc) == each_object(objs, ObjectCheck::FontEmbedding));
        lemma_font_findings_complete(objs, k);
        let e = each_object(objs, ObjectCheck::FontEmbedding);
        let i = choose|i: int| 0 <= i < e.len() && #[trigger] e[i] == unembedded_finding(objs[k].0);
        assert(FontEmbeddingRule.findings(doc)[i] == unembedded_finding(objs[k].0));
    }
    if forall|k: int| 0 <= k < objs.len() ==> !(#[trigger] objs[k].1 matches CosValue::Dict(d)
        && unembedded_descriptor(d)) {
        if FontEmbeddingRule.findings(doc).len() > 0 {
            assert(names_unembedded(objs, FontEmbeddingRule.findings(doc)[0]));
        }
    }
}

/// `f` is one of the findings a check reports for a stored object of `objs`.
pub open spec fn from_some_object(objs: Seq<(ObjectId, CosValue)>, c: ObjectCheck, f: Finding) -> bool {
    exists|k: int, j: int| 0 <= k < objs.len() && 0 <= j < object_findings(c, objs[k].0, objs[k].1).len()
        && f == #[trigger] object_findings(c, objs[k].0, objs[k].1)[j]
}

proof fn lemma_each_object_origin(objs: Seq<(ObjectId, CosValue)>, c: ObjectCheck)
    ensures
        forall|i: int| 0 <= i < each_object(objs, c).len() ==> from_some_object(objs, c, #[trigger] each_object(objs, c)[i]),
    decreases objs.len(),
{
    if objs.len() > 0 {
        let pre = objs.drop_last();
        lemma_each_object_origin(pre, c);
        let e = each_object(objs, c);
        let ep = each_object(pre, c);
        let k0 = objs.len() - 1;
        let last = object_findings(c, objs[k0].0, objs[k0].1);
        assert(objs.last() == objs[k0]);
        assert(e == ep + last);
        assert forall|i: int| 0 <= i < e.len() implies from_some_object(objs, c, #[trigger] e[i]) by {
            if i < ep.len() {
                assert(from_some_object(pre, c, ep[i]));
                let (k, j) = choose|k: int, j: int| 0 <= k < pre.len()
                    && 0 <= j < object_findings(c, pre[k].0, pre[k].1).len()
                    && ep[i] == #[trigger] object_findings(c, pre[k].0, pre[k].1)[j];
                assert(pre[k] == objs[k]);
                assert(e[i] == ep[i]);
                assert(e[i] == object_findings(c, objs[k].0, objs[k].1)[j]);
            } else {
                assert(e[i] == last[i - ep.len()]);
                assert(e[i] == object_findings(c, objs[k0].0, objs[k0].1)[i - ep.len()]);
            }
        }
    }
}

proof fn lemma_each_object_member(objs: Seq<(ObjectId, CosValue)>, c: ObjectCheck, k: int, j: int)
    requires 0 <= k < objs.len(), 0 <= j < object_findings(c, objs[k].0, objs[k].1).len(),
    ensures
        exists|i: int| 0 <= i < each_object(objs, c).len()
            && #[trigger] each_object(objs, c)[i] == object_findings(c, objs[k].0, objs[k].1)[j],
    decreases objs.len(),
{
    let pre = objs.drop_last();
    let e = each_object(objs, c);
    let ep = each_object(pre, c);
    let last = object_findings(c, objs.last().0, objs.last().1);
    assert(e == ep + last);
    if k == objs.len() - 1 {
        assert(objs[k] == objs.last());
        assert(e[ep.len() + j] == last[j]);
    } else {
        assert(pre[k] == objs[k]);
        lemma_each_object_member(pre, c, k, j);
        let i = choose|i: int| 0 <= i < ep.len() && #[trigger] ep[i] == object_findings(c, pre[k].0, pre[k].1)[j];
        assert(e[i] == ep[i]);
    }
}

/// `d` is an annotation dictionary whose Print flag (bit 3 of `/F`, the
/// value 4) is not set; an annotation without `/F` has no flag set.
pub open spec fn unprinted_annotation(d: Seq<(Seq<u8>, CosValue)>) -> bool {
    &&& dict_lookup(d, lit("Type")) == Some(CosValue::Name(lit("Annot")))
    &&& !(dict_lookup(d, lit("F")) matches Some(CosValue::Integer(f)) && (f as i64) & 4 != 0)
}

/// The finding that names annotation `id` as not printed.
pub open spec fn unprinted_finding(id: ObjectId) -> Finding {
    ("9.0"@, obj_msg("PDF/A-1b requires annotation print flag (Obj "@, id, ")."@))
}

/// `f` names a stored annotation of `objs` without the Print flag.
pub open spec fn names_unprinted(objs: Seq<(ObjectId, CosValue)>, f: Finding) -> bool {
    exists|k: int| {
        &&& 0 <= k < objs.len()
        &&& #[trigger] objs[k].1 matches CosValue::Dict(d) && unprinted_annotation(d)
        &&& f == unprinted_finding(objs[k].0)
    }
}

/// The annotation rule reports exactly the stored annotations whose Print
/// flag is not set: each finding names such an annotation, and each such
/// annotation is named by a finding.
pub proof fn lemma_annotation_rule(doc: &Document)
    ensures
        forall|i: int| 0 <= i < AnnotationRule.findings(doc).len()
            ==> names_unprinted(doc.objects@, #[trigger] AnnotationRule.findings(doc)[i]),
        forall|k: int| 0 <= k < doc.objects@.len() && (#[trigger] doc.objects@[k].1 matches CosValue::Dict(d)
            && unprinted_annotation(d)) ==>
            exists|i: int| 0 <= i < AnnotationRule.findings(doc).len()
                && #[trigger] AnnotationRule.findings(doc)[i] == unprinted_finding(doc.objects@[k].0),
{
    let objs = doc.objects@;
    let c = ObjectCheck::Annotation;
    let e = each_object(objs, c);
    assert(AnnotationRule.findings(doc) == e);
    lemma_each_object_origin(objs, c);
    assert forall|i: int| 0 <= i < e.len() implies names_unprinted(objs, #[trigger] e[i]) by {
        assert(from_some_object(objs, c, e[i]));
        let (k, j) = choose|k: int, j: int| 0 <= k < objs.len()
            && 0 <= j < object_findings(c, objs[k].0, objs[k].1).len()
            && e[i] == #[trigger] object_findings(c, objs[k].0, objs[k].1)[j];
        assert(objs[k].1 matches CosValue::Dict(d) && unprinted_annotation(d));
    }
    assert forall|k: int| 0 <= k < objs.len() && (#[trigger] objs[k].1 matches CosValue::Dict(d)
        && unprinted_annotation(d)) implies
        exists|i: int| 0 <= i < e.len() && #[trigger] e[i] == unprinted_finding(objs[k].0) by {
        assert(0i64 & 4i64 == 0) by (bit_vector);
        if let CosValue::Dict(d) = objs[k].1 {
            assert(annot_flags(d) & 4 == 0);
        }
        assert(object_findings(c, objs[k].0, objs[k].1) == seq![unprinted_finding(objs[k].0)]);
        lemma_each_object_member(objs, c, k, 0);
    }
}

/// `v` is the name of the LZW filter, in full (`/LZWDecode`) or
/// abbreviated (`/LZW`).
pub open spec fn is_lzw_name(v: CosValue) -> bool {
    v == CosValue::Name(lit("LZWDecode")) || v == CosValue::Name(lit("LZW"))
}

/// The `/Filter` entry of `d` applies the LZW filter: as the one filter, or
/// as one of an array of filters.
pub open spec fn lzw_compressed(d: Seq<(Seq<u8>, CosValue)>) -> bool {
    match dict_lookup(d, lit("Filter")) {
        Some(v) => is_lzw_name(v) || (v matches CosValue::Array(a) && exists|k: int| 0 <= k < a.len() && is_lzw_name(#[trigger] a[k])),
        None => false,
    }
}

/// The finding that names stream `id` as LZW-compressed.
pub open spec fn lzw_finding(id: ObjectId) -> Finding {
    ("2.0"@, obj_msg("PDF/A-1b forbids LZW compression (Obj "@, id, ")."@))
}

/// `f` names a stored LZW-compressed stream of `objs`.
pub open spec fn names_lzw_stream(objs: Seq<(ObjectId, CosValue)>, f: Finding) -> bool {
    exists|k: int| {
        &&& 0 <= k < objs.len()
        &&& #[trigger] objs[k].1 matches CosValue::Stream(d, _) && lzw_compressed(d)
        &&& f == lzw_finding(objs[k].0)
    }
}

proof fn lemma_lzw_filter_uses(d: Seq<(Seq<u8>, CosValue)>)
    ensures filter_uses(dict_lookup(d, lit("Filter")), FilterSet::Lzw) == lzw_compressed(d),
{
    match dict_lookup(d, lit("Filter")) {
        Some(CosValue::Array(a)) => {
            assert forall|k: int| 0 <= k < a.len() implies is_name_in(FilterSet::Lzw, #[trigger] a[k]) == is_lzw_name(a[k]) by {}
            if lzw_compressed(d) {
                let k = choose|k: int| 0 <= k < a.len() && is_lzw_name(#[trigger] a[k]);
                assert(is_name_in(FilterSet::Lzw, a[k]));
            }
            if filter_uses(dict_lookup(d, lit("Filter")), FilterSet::Lzw) {
                let k = choose|k: int| 0 <= k < a.len() && is_name_in(FilterSet::Lzw, #[trigger] a[k]);
                assert(is_lzw_name(a[k]));
            }
        }
        _ => {}
    }
}

/// The LZW rule reports exactly the stored streams compressed with LZW
/// (named `/LZWDecode` or `/LZW`, alone or in a filter array): each finding
/// names such a stream, and each such stream is named by a finding.
pub proof fn lemma_lzw_rule(doc: &Document)
    ensures
        forall|i: int| 0 <= i < NoLzwFilterRule.findings(doc).len()
            ==> names_lzw_stream(doc.objects@, #[trigger] NoLzwFilterRule.findings(doc)[i]),
        forall|k: int| 0 <= k < doc.objects@.len() && (#[trigger] doc.objects@[k].1 matches CosValue::Stream(d, _)
            && lzw_compressed(d)) ==>
            exists|i: int| 0 <= i < NoLzwFilterRule.findings(doc).len()
                && #[trigger] NoLzwFilterRule.findings(doc)[i] == lzw_finding(doc.objects@[k].0),
{
    let objs = doc.objects@;
    let c = ObjectCheck::Filters(FilterSet::Lzw);
    let e = each_object(objs, c);
    assert(NoLzwFilterRule.findings(doc) == e);
    lemma_each_object_origin(objs, c);
    assert forall|i: int| 0 <= i < e.len() implies names_lzw_stream(objs, #[trigger] e[i]) by {
        assert(from_some_object(objs, c, e[i]));
        let (k, j) = choose|k: int, j: int| 0 <= k < objs.len()
            && 0 <= j < object_findings(c, objs[k].0, objs[k].1).len()
            && e[i] == #[trigger] object_findings(c, objs[k].0, objs[k].1)[j];
        if let CosValue::Stream(d, _) = objs[k].1 {
            lemma_lzw_filter_uses(d);
        }
        assert(objs[k].1 matches CosValue::Stream(d, _) && lzw_compressed(d));
    }
    assert forall|k: int| 0 <= k < objs.len() && (#[trigger] objs[k].1 matches CosValue::Stream(d, _)
        && lzw_compressed(d)) implies
        exists|i: int| 0 <= i < e.len() && #[trigger] e[i] == lzw_finding(objs[k].0) by {
        if let CosValue::Stream(d, _) = objs[k].1 {
            lemma_lzw_filter_uses(d);
        }
        assert(object_findings(c, objs[k].0, objs[k].1) == seq![lzw_finding(objs[k].0)]);
        lemma_each_object_member(objs, c, k, 0);
    }
}

/// The finding that names dictionary `id` as holding a JavaScript entry.
pub open spec fn js_entry_finding(id: ObjectId) -> Finding {
    ("4.0"@, obj_msg("PDF/A-1b forbids JavaScript. Found JS entry in Obj "@, id, ""@))
}

/// The finding that names dictionary `id` as a JavaScript action.
pub open spec fn js_action_finding(id: ObjectId) -> Finding {
    ("4.1"@, obj_msg("PDF/A-1b forbids JavaScript Actions (Obj "@, id, ")."@))
}

/// `f` names a stored dictionary of `objs` with a `/JavaScript` or `/JS`
/// entry, or a stored JavaScript action (`/S /JavaScript`).
pub open spec fn names_javascript(objs: Seq<(ObjectId, CosValue)>, f: Finding) -> bool {
    exists|k: int| {
        &&& 0 <= k < objs.len()
        &&& #[trigger] objs[k].1 matches CosValue::Dict(d)
        &&& {
            ||| f == js_entry_finding(objs[k].0)
                && (dict_lookup(d, lit("JavaScript")) is Some || dict_lookup(d, lit("JS")) is Some)
            ||| f == js_action_finding(objs[k].0) && dict_lookup(d, lit("S")) == Some(CosValue::Name(lit("JavaScript")))
        }
    }
}

/// The JavaScript rule reports exactly the JavaScript it finds: each
/// finding names a stored dictionary with a `/JavaScript` or `/JS` entry,
/// or a stored JavaScript action; each such dictionary and action is named
/// by a finding.
pub proof fn lemma_javascript_rule(doc: &Document)
    ensures
        forall|i: int| 0 <= i < NoJavaScriptRule.findings(doc).len()
            ==> names_javascript(doc.objects@, #[trigger] NoJavaScriptRule.findings(doc)[i]),
        forall|k: int| 0 <= k < doc.objects@.len() && (#[trigger] doc.objects@[k].1 matches CosValue::Dict(d)
            && (dict_lookup(d, lit("JavaScript")) is Some || dict_lookup(d, lit("JS")) is Some)) ==>
            exists|i: int| 0 <= i < NoJavaScriptRule.findings(doc).len()
                && #[trigger] NoJavaScriptRule.findings(doc)[i] == js_entry_finding(doc.objects@[k].0),
        forall|k: int| 0 <= k < doc.objects@.len() && (#[trigger] doc.objects@[k].1 matches CosValue::Dict(d)
            && dict_lookup(d, lit("S")) == Some(CosValue::Name(lit("JavaScript")))) ==>
            exists|i: int| 0 <= i < NoJavaScriptRule.findings(doc).len()
                && #[trigger] NoJavaScriptRule.findings(doc)[i] == js_action_finding(doc.objects@[k].0),
{
    let objs = doc.objects@;
    let c = ObjectCheck::JavaScript;
    let e = each_object(objs, c);
    assert(NoJavaScriptRule.findings(doc) == e);
    lemma_each_object_origin(objs, c);
    assert forall|i: int| 0 <= i < e.len() implies names_javascript(objs, #[trigger] e[i]) by {
        assert(from_some_object(objs, c, e[i]));
        let (k, j) = choose|k: int, j: int| 0 <= k < objs.len()
            && 0 <= j < object_findings(c, objs[k].0, objs[k].1).len()
            && e[i] == #[trigger] object_findings(c, objs[k].0, objs[k].1)[j];
        assert(objs[k].1 matches CosValue::Dict(_));
    }
    assert forall|k: int| 0 <= k < objs.len() && (#[trigger] objs[k].1 matches CosValue::Dict(d)
        && (dict_lookup(d, lit("JavaScript")) is Some || dict_lookup(d, lit("JS")) is Some)) implies
        exists|i: int| 0 <= i < e.len() && #[trigger] e[i] == js_entry_finding(objs[k].0) by {
        assert(object_findings(c, objs[k].0, objs[k].1)[0] == js_entry_finding(objs[k].0));
        lemma_each_object_member(objs, c, k, 0);
    }
    assert forall|k: int| 0 <= k < objs.len() && (#[trigger] objs[k].1 matches CosValue::Dict(d)
        && dict_lookup(d, lit("S")) == Some(CosValue::Name(lit("JavaScript")))) implies
        exists|i: int| 0 <= i < e.len() && #[trigger] e[i] == js_action_finding(objs[k].0) by {
        let of = object_findings(c, objs[k].0, objs[k].1);
        let j = of.len() - 1;
        assert(of[j] == js_action_finding(objs[k].0));
        lemma_each_object_member(objs, c, k, j);
    }
}

/// The action types PDF/A-1b forbids: Launch, Sound, Movie, Hide,
/// ResetForm and ImportData.
pub open spec fn forbidden_action_types() -> Seq<Seq<u8>> {
    seq![lit("Launch"), lit("Sound"), lit("Movie"), lit("Hide"), lit("ResetForm"), lit("ImportData")]
}

/// The finding that names action `id` of type `n` as forbidden.
pub open spec fn action_finding(n: Seq<u8>, id: ObjectId) -> Finding {
    ("11.0"@, "PDF/A-1b forbids "@ + utf8_lossy(n) + obj_msg(" actions (Obj "@, id, ")."@))
}

/// `f` names a stored action of `objs` whose type (`/S`) is forbidden.
pub open spec fn names_forbidden_action(objs: Seq<(ObjectId, CosValue)>, f: Finding) -> bool {
    exists|k: int, t: int| {
        &&& 0 <= k < objs.len() && 0 <= t < forbidden_action_types().len()
        &&& #[trigger] objs[k].1 matches CosValue::Dict(d)
            && dict_lookup(d, lit("S")) == Some(CosValue::Name(#[trigger] forbidden_action_types()[t]))
        &&& f == action_finding(forbidden_action_types()[t], objs[k].0)
    }
}

/// The launch-actions rule reports exactly the stored actions of a
/// forbidden type: each finding names such an action and its type, and
/// each such action is named by a finding.
pub proof fn lemma_launch_actions_rule(doc: &Document)
    ensures
        forall|i: int| 0 <= i < NoLaunchActionsRule.findings(doc).len()
            ==> names_forbidden_action(doc.objects@, #[trigger] NoLaunchActionsRule.findings(doc)[i]),
        forall|k: int, t: int| 0 <= k < doc.objects@.len() && 0 <= t < forbidden_action_types().len()
            && (#[trigger] doc.objects@[k].1 matches CosValue::Dict(d)
                && dict_lookup(d, lit("S")) == Some(CosValue::Name(#[trigger] forbidden_action_types()[t]))) ==>
            exists|i: int| 0 <= i < NoLaunchActionsRule.findings(doc).len()
                && #[trigger] NoLaunchActionsRule.findings(doc)[i]
                    == action_finding(forbidden_action_types()[t], doc.objects@[k].0),
{
    let objs = doc.objects@;
    let c = ObjectCheck::LaunchActions;
    let e = each_object(objs, c);
    let fa = forbidden_action_types();
    assert(NoLaunchActionsRule.findings(doc) == e);
    lemma_each_object_origin(objs, c);
    assert forall|i: int| 0 <= i < e.len() implies names_forbidden_action(objs, #[trigger] e[i]) by {
        assert(from_some_object(objs, c, e[i]));
        let (k, j) = choose|k: int, j: int| 0 <= k < objs.len()
            && 0 <= j < object_findings(c, objs[k].0, objs[k].1).len()
            && e[i] == #[trigger] object_findings(c, objs[k].0, objs[k].1)[j];
        if let CosValue::Dict(d) = objs[k].1 {
            if let Some(CosValue::Name(n)) = dict_lookup(d, lit("S")) {
                assert(is_forbidden_action(n));
                let t = if n == fa[0] { 0 } else if n == fa[1] { 1 } else if n == fa[2] { 2 }
                    else if n == fa[3] { 3 } else if n == fa[4] { 4 } else { 5int };
                assert(n == fa[t]);
                assert(e[i] == action_finding(fa[t], objs[k].0));
            }
        }
    }
    assert forall|k: int, t: int| 0 <= k < objs.len() && 0 <= t < fa.len()
        && (#[trigger] objs[k].1 matches CosValue::Dict(d)
            && dict_lookup(d, lit("S")) == Some(CosValue::Name(#[trigger] fa[t]))) implies
        exists|i: int| 0 <= i < e.len() && #[trigger] e[i] == action_finding(fa[t], objs[k].0) by {
        assert(is_forbidden_action(fa[t]));
        assert(object_findings(c, objs[k].0, objs[k].1) == seq![action_finding(fa[t], objs[k].0)]);
        lemma_each_object_member(objs, c, k, 0);
    }
}

/// The stream keys that bring transparency in: soft masks, constant alpha
/// and blend modes.
pub open spec fn transparency_keys() -> Seq<&'static str> {
    seq!["SMask", "SMaskInData", "ca", "CA", "BM"]
}

/// `f` names a stored stream of `objs` with one of the transparency keys,
/// or a stored dictionary with a transparency group.
pub open spec fn names_transparency(objs: Seq<(ObjectId, CosValue)>, f: Finding) -> bool {
    exists|k: int| {
        &&& 0 <= k < objs.len()
        &&& {
            ||| exists|t: int| {
                &&& 0 <= t < transparency_keys().len()
                &&& objs[k].1 matches CosValue::Stream(d, _)
                    && dict_lookup(d, lit(#[trigger] transparency_keys()[t])) is Some
                    && f == transparency_key_finding(d, transparency_keys()[t], objs[k].0)[0]
            }
            ||| {
                &&& #[trigger] objs[k].1 matches CosValue::Dict(d)
                    && (dict_lookup(d, lit("Group")) matches Some(CosValue::Dict(g))
                        && dict_lookup(g, lit("S")) == Some(CosValue::Name(lit("Transparency"))))
                    && f == ("8.1"@, obj_msg("PDF/A-1b forbids transparency groups (Obj "@, objs[k].0, ")."@))
            }
        }
    }
}

proof fn lemma_transparency_complete(doc: &Document)
    ensures
        forall|k: int, t: int| 0 <= k < doc.objects@.len() && 0 <= t < transparency_keys().len()
            && (#[trigger] doc.objects@[k].1 matches CosValue::Stream(d, _)
                && dict_lookup(d, lit(#[trigger] transparency_keys()[t])) is Some) ==>
            exists|i: int| 0 <= i < NoTransparencyRule.findings(doc).len()
                && #[trigger] NoTransparencyRule.findings(doc)[i] == ("8.0"@,
                    "PDF/A-1b forbids transparency (key \""@ + transparency_keys()[t]@
                        + obj_msg("\" in Obj "@, doc.objects@[k].0, ")."@)),
{
    let objs = doc.objects@;
    let c = ObjectCheck::Transparency;
    let e = each_object(objs, c);
    let tk = transparency_keys();
    assert(NoTransparencyRule.findings(doc) == e);
    assert forall|k: int, t: int| 0 <= k < objs.len() && 0 <= t < tk.len()
        && (#[trigger] objs[k].1 matches CosValue::Stream(d, _) && dict_lookup(d, lit(#[trigger] tk[t])) is Some) implies
        exists|i: int| 0 <= i < e.len() && #[trigger] e[i] == ("8.0"@,
            "PDF/A-1b forbids transparency (key \""@ + tk[t]@ + obj_msg("\" in Obj "@, objs[k].0, ")."@)) by {
        let id = objs[k].0;
        if let CosValue::Stream(d, _) = objs[k].1 {
            let f0 = transparency_key_finding(d, tk[0], id);
            let f1 = transparency_key_finding(d, tk[1], id);
            let f2 = transparency_key_finding(d, tk[2], id);
            let f3 = transparency_key_finding(d, tk[3], id);
            let f4 = transparency_key_finding(d, tk[4], id);
            let all = f0 + f1 + f2 + f3 + f4;
            assert(object_findings(c, id, objs[k].1) == all);
            let pos = if t == 0 { 0 } else if t == 1 { f0.len() as int } else if t == 2 { (f0.len() + f1.len()) as int }
                else if t == 3 { (f0.len() + f1.len() + f2.len()) as int } else { (f0.len() + f1.len() + f2.len() + f3.len()) as int };
            let ft = transparency_key_finding(d, tk[t], id);
            assert(ft.len() == 1);
            assert(all[pos] == ft[0]);
            lemma_each_object_member(objs, c, k, pos);
        }
    }
}

/// The transparency rule reports transparency and nothing else: each
/// finding names a stored stream with a soft mask, constant alpha or blend
/// mode key, or a stored dictionary with a transparency group; and each
/// such key of a stored stream is named by a finding.
pub proof fn lemma_transparency_rule(doc: &Document)
    ensures
        forall|i: int| 0 <= i < NoTransparencyRule.findings(doc).len()
            ==> names_transparency(doc.objects@, #[trigger] NoTransparencyRule.findings(doc)[i]),
        forall|k: int, t: int| 0 <= k < doc.objects@.len() && 0 <= t < transparency_keys().len()
            && (#[trigger] doc.objects@[k].1 matches CosValue::Stream(d, _)
                && dict_lookup(d, lit(#[trigger] transparency_keys()[t])) is Some) ==>
            exists|i: int| 0 <= i < NoTransparencyRule.findings(doc).len()
                && #[trigger] NoTransparencyRule.findings(doc)[i] == ("8.0"@,
                    "PDF/A-1b forbids transparency (key \""@ + transparency_keys()[t]@
                        + obj_msg("\" in Obj "@, doc.objects@[k].0, ")."@)),
{
    lemma_transparency_complete(doc);
    let objs = doc.objects@;
    let c = ObjectCheck::Transparency;
    let e = each_object(objs, c);
    let tk = transparency_keys();
    assert(NoTransparencyRule.findings(doc) == e);
    lemma_each_object_origin(objs, c);
    assert forall|i: int| 0 <= i < e.len() implies names_transparency(objs, #[trigger] e[i]) by {
        assert(from_some_object(objs, c, e[i]));
        let (k, j) = choose|k: int, j: int| 0 <= k < objs.len()
            && 0 <= j < object_findings(c, objs[k].0, objs[k].1).len()
            && e[i] == #[trigger] object_findings(c, objs[k].0, objs[k].1)[j];
        let id = objs[k].0;
        match objs[k].1 {
            CosValue::Stream(d, _) => {
                let f0 = transparency_key_finding(d, tk[0], id);
                let f1 = transparency_key_finding(d, tk[1], id);
                let f2 = transparency_key_finding(d, tk[2], id);
                let f3 = transparency_key_finding(d, tk[3], id);
                let f4 = transparency_key_finding(d, tk[4], id);
                let all = f0 + f1 + f2 + f3 + f4;
                assert(object_findings(c, id, objs[k].1) == all);
                let t = if j < f0.len() { 0 } else if j < f0.len() + f1.len() { 1 }
                    else if j < f0.len() + f1.len() + f2.len() { 2 }
                    else if j < f0.len() + f1.len() + f2.len() + f3.len() { 3 } else { 4int };
                let ft = transparency_key_finding(d, tk[t], id);
                assert(ft.len() > 0);
                assert(all[j] == ft[0]);
                assert(dict_lookup(d, lit(tk[t])) is Some);
            }
            _ => {}
        }
    }
}

/// `v` names a deprecated ASCII filter (`/ASCII85Decode` or
/// `/ASCIIHexDecode`).
pub open spec fn is_deprecated_filter_name(v: CosValue) -> bool {
    v == CosValue::Name(lit("ASCII85Decode")) || v == CosValue::Name(lit("ASCIIHexDecode"))
}

/// The `/Filter` entry of `d` applies a deprecated ASCII filter, alone or
/// in an array of filters.
pub open spec fn deprecated_filtered(d: Seq<(Seq<u8>, CosValue)>) -> bool {
    match dict_lookup(d, lit("Filter")) {
        Some(v) => is_deprecated_filter_name(v)
            || (v matches CosValue::Array(a) && exists|k: int| 0 <= k < a.len() && is_deprecated_filter_name(#[trigger] a[k])),
        None => false,
    }
}

/// The finding that names stream `id` as using a deprecated filter.
pub open spec fn deprecated_finding(id: ObjectId) -> Finding {
    ("3.0"@, obj_msg("PDF/A-1b discourages deprecated filters (Obj "@, id, ")."@))
}

/// `f` names a stored stream of `objs` that uses a deprecated filter.
pub open spec fn names_deprecated_stream(objs: Seq<(ObjectId, CosValue)>, f: Finding) -> bool {
    exists|k: int| {
        &&& 0 <= k < objs.len()
        &&& #[trigger] objs[k].1 matches CosValue::Stream(d, _) && deprecated_filtered(d)
        &&& f == deprecated_finding(objs[k].0)
    }
}

proof fn lemma_deprecated_filter_uses(d: Seq<(Seq<u8>, CosValue)>)
    ensures filter_uses(dict_lookup(d, lit("Filter")), FilterSet::Deprecated) == deprecated_filtered(d),
{
    match dict_lookup(d, lit("Filter")) {
        Some(CosValue::Array(a)) => {
            assert forall|k: int| 0 <= k < a.len() implies
                is_name_in(FilterSet::Deprecated, #[trigger] a[k]) == is_deprecated_filter_name(a[k]) by {}
            if deprecated_filtered(d) {
                let k = choose|k: int| 0 <= k < a.len() && is_deprecated_filter_name(#[trigger] a[k]);
                assert(is_name_in(FilterSet::Deprecated, a[k]));
            }
            if filter_uses(dict_lookup(d, lit("Filter")), FilterSet::Deprecated) {
                let k = choose|k: int| 0 <= k < a.len() && is_name_in(FilterSet::Deprecated, #[trigger] a[k]);
                assert(is_deprecated_filter_name(a[k]));
            }
        }
        _ => {}
    }
}

/// The deprecated-filters rule reports exactly the stored streams that use
/// ASCII85Decode or ASCIIHexDecode, alone or in a filter array.
pub proof fn lemma_deprecated_filters_rule(doc: &Document)
    ensures
        forall|i: int| 0 <= i < NoDeprecatedFiltersRule.findings(doc).len()
            ==> names_deprecated_stream(doc.objects@, #[trigger] NoDeprecatedFiltersRule.findings(doc)[i]),
        forall|k: int| 0 <= k < doc.objects@.len() && (#[trigger] doc.objects@[k].1 matches CosValue::Stream(d, _)
            && deprecated_filtered(d)) ==>
            exists|i: int| 0 <= i < NoDeprecatedFiltersRule.findings(doc).len()
                && #[trigger] NoDeprecatedFiltersRule.findings(doc)[i] == deprecated_finding(doc.objects@[k].0),
{
    let objs = doc.objects@;
    let c = ObjectCheck::Filters(FilterSet::Deprecated);
    let e = each_object(objs, c);
    assert(NoDeprecatedFiltersRule.findings(doc) == e);
    lemma_each_object_origin(objs, c);
    assert forall|i: int| 0 <= i < e.len() implies names_deprecated_stream(objs, #[trigger] e[i]) by {
        assert(from_some_object(objs, c, e[i]));
        let (k, j) = choose|k: int, j: int| 0 <= k < objs.len()
            && 0 <= j < object_findings(c, objs[k].0, objs[k].1).len()
            && e[i] == #[trigger] object_findings(c, objs[k].0, objs[k].1)[j];
        if let CosValue::Stream(d, _) = objs[k].1 {
            lemma_deprecated_filter_uses(d);
        }
        assert(objs[k].1 matches CosValue::Stream(d, _) && deprecated_filtered(d));
    }
    assert forall|k: int| 0 <= k < objs.len() && (#[trigger] objs[k].1 matches CosValue::Stream(d, _)
        && deprecated_filtered(d)) implies
        exists|i: int| 0 <= i < e.len() && #[trigger] e[i] == deprecated_finding(objs[k].0) by {
        if let CosValue::Stream(d, _) = objs[k].1 {
            lemma_deprecated_filter_uses(d);
        }
        assert(object_findings(c, objs[k].0, objs[k].1) == seq![deprecated_finding(objs[k].0)]);
        lemma_each_object_member(objs, c, k, 0);
    }
}

impl PreflightRule for NoTransparencyRule {
    open spec fn findings(&self, doc: &Document) -> Seq<Finding> {
        each_object(doc.objects@, ObjectCheck::Transparency)
    }

    fn validate(&self, doc: &Document) -> (r: Vec<ValidationError>) {
        scan(doc, ObjectCheck::Transparency)
    }

    fn id(&self) -> &'static str {
        "8.0"
    }
}

impl PreflightRule for AnnotationRule {
    open spec fn findings(&self, doc: &Document) -> Seq<Finding> {
        each_object(doc.objects@, ObjectCheck::Annotation)
    }

    fn validate(&self, doc: &Document) -> (r: Vec<ValidationError>) {
        scan(doc, ObjectCheck::Annotation)
    }

    fn id(&self) -> &'static str {
        "9.0"
    }
}

impl PreflightRule for OutputIntentRule {
    open spec fn findings(&self, doc: &Document) -> Seq<Finding> {
        output_intent_findings(doc)
    }

    fn validate(&self, doc: &Document) -> (r: Vec<ValidationError>) {
        let catalog = match doc.catalog() {
            Some(c) => c,
            None => return none(),
        };
        match catalog.get(&CosName::named("OutputIntents")) {
            Some(CosObject::Array(arr)) => {
                if arr.len() == 0 {
                    return single("10.2", "OutputIntents must be an array.".to_owned());
                }
                let ghost a = view_objs(arr@);
                proof { lemma_view_objs(arr@); }
                let mut v = none();
                let mut k: usize = 0;
                while k < arr.len()
                    invariant
                        k <= arr@.len(),
                        a == view_objs(arr@),
                        a.len() == arr@.len(),
                        forall|j: int| 0 <= j < arr@.len() ==> a[j] == view_obj(#[trigger] arr@[j]),
                        errors_view(v@) == intent_findings(a.take(k as int)),
                    decreases arr.len() - k,
                {
                    proof { assert(a.take(k + 1).drop_last() =~= a.take(k as int)); }
                    match &arr[k] {
                        CosObject::Dictionary(d) => {
                            if !has_entry(d, "DestOutputProfile") {
                                let mut m = String::new();
                                push_str(&mut m, "OutputIntent[");
                                push_digits(&mut m, k as u64);
                                push_str(&mut m, "] missing /DestOutputProfile.");
                                append_errors(&mut v, single("10.1", m));
                            } else {
                                append_errors(&mut v, none());
                            }
                        }
                        _ => {}
                    }
                    proof {
                        assert(a.take(k + 1).last() == a[k as int]);
                        assert(a.take(k + 1).len() - 1 == k);
                        assert(errors_view(v@) =~= intent_findings(a.take(k + 1)));
                    }
                    k += 1;
                }
                proof { assert(a.take(arr@.len() as int) =~= a); }
                v
            }
            Some(_) => single("10.2", "OutputIntents must be an array.".to_owned()),
            None => single("10.0", "PDF/A-1b requires /OutputIntents in the catalog.".to_owned()),
        }
    }

    fn id(&self) -> &'static str {
        "10.0"
    }
}

impl PreflightRule for NoLaunchActionsRule {
    open spec fn findings(&self, doc: &Document) -> Seq<Finding> {
        each_object(doc.objects@, ObjectCheck::LaunchActions)
    }

    fn validate(&self, doc: &Document) -> (r: Vec<ValidationError>) {
        scan(doc, ObjectCheck::LaunchActions)
    }

    fn id(&self) -> &'static str {
        "11.0"
    }
}

impl PreflightRule for ColorSpaceRule {
    open spec fn findings(&self, doc: &Document) -> Seq<Finding> {
        each_object(doc.objects@, ObjectCheck::ColorSpace)
    }

    fn validate(&self, doc: &Document) -> (r: Vec<ValidationError>) {
        scan(doc, ObjectCheck::ColorSpace)
    }

    fn id(&self) -> &'static str {
        "12.0"
    }
}

impl PreflightRule for PageRule {
    open spec fn findings(&self, doc: &Document) -> Seq<Finding> {
        page_findings(doc)
    }

    fn validate(&self, doc: &Document) -> (r: Vec<ValidationError>) {
        let catalog = match doc.catalog() {
            Some(c) => c,
            None => return none(),
        };
        let mut v = one_if_exec(has_entry(catalog, "OpenAction"), "13.0",
            "PDF/A-1b forbids /OpenAction in the catalog.".to_owned());
        append_errors(&mut v, scan(doc, ObjectCheck::PageActions));
        v
    }

    fn id(&self) -> &'static str {
        "13.0"
    }
}

impl PreflightRule for EmbeddedFileRule {
    open spec fn findings(&self, doc: &Document) -> Seq<Finding> {
        Seq::empty()
    }

    fn validate(&self, doc: &Document) -> (r: Vec<ValidationError>) {
        none()
    }

    fn id(&self) -> &'static str {
        "14.0"
    }
}

} // verus!

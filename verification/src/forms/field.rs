//! Form fields: their kind, name and value, setting a value, and the value
//! written when form data is exported.

use vstd::prelude::*;
use crate::bytes::{eq_str, lit, str_bytes};
use crate::cos::{CosDictionary, CosName, CosObject, CosValue, ObjectId, dict_insert, dict_lookup};
use crate::document::{Document, ObjectStore, store_find};
use crate::text::{from_utf8_strict, lossy_chars, owned_text, push_char, push_str, string_from_chars, utf8_lossy, utf8_text};

verus! {

/// A form field, by kind: the field's id and dictionary, and the store its
/// references resolve in.
#[derive(Debug, Clone, Copy)]
pub enum PdField<'a> {
    TextField { id: ObjectId, dict: &'a CosDictionary, store: &'a ObjectStore },
    CheckBox { id: ObjectId, dict: &'a CosDictionary, store: &'a ObjectStore },
    RadioButton { id: ObjectId, dict: &'a CosDictionary, store: &'a ObjectStore },
    ComboBox { id: ObjectId, dict: &'a CosDictionary, store: &'a ObjectStore },
    ListBox { id: ObjectId, dict: &'a CosDictionary, store: &'a ObjectStore },
    PushButton { id: ObjectId, dict: &'a CosDictionary, store: &'a ObjectStore },
    SignatureField { id: ObjectId, dict: &'a CosDictionary, store: &'a ObjectStore },
    Unknown { id: ObjectId, dict: &'a CosDictionary, store: &'a ObjectStore },
}

/// The field flags (`/Ff`), 0 when absent.
pub open spec fn ff_flags(d: Seq<(Seq<u8>, CosValue)>) -> i64 {
    match dict_lookup(d, lit("Ff")) {
        Some(CosValue::Integer(n)) => n as i64,
        _ => 0,
    }
}

/// The field type name (`/FT`).
pub open spec fn field_type(d: Seq<(Seq<u8>, CosValue)>) -> Option<Seq<u8>> {
    match dict_lookup(d, lit("FT")) {
        Some(CosValue::Name(n)) => Some(n),
        _ => None,
    }
}

/// The kind of field `f` is the one its dictionary `d` declares: `/FT` with,
/// for buttons and choices, the push-button, radio and combo flag bits.
pub open spec fn kind_matches(f: PdField, d: Seq<(Seq<u8>, CosValue)>) -> bool {
    let ft = field_type(d);
    let fl = ff_flags(d);
    if ft == Some(lit("Tx")) {
        f is TextField
    } else if ft == Some(lit("Btn")) {
        if fl & 0x10000 != 0 {
            f is PushButton
        } else if fl & 0x8000 != 0 {
            f is RadioButton
        } else {
            f is CheckBox
        }
    } else if ft == Some(lit("Ch")) {
        if fl & 0x20000 != 0 {
            f is ComboBox
        } else {
            f is ListBox
        }
    } else if ft == Some(lit("Sig")) {
        f is SignatureField
    } else {
        f is Unknown
    }
}

pub open spec fn field_id_of(f: PdField) -> ObjectId {
    match f {
        PdField::TextField { id, .. } => id,
        PdField::CheckBox { id, .. } => id,
        PdField::RadioButton { id, .. } => id,
        PdField::ComboBox { id, .. } => id,
        PdField::ListBox { id, .. } => id,
        PdField::PushButton { id, .. } => id,
        PdField::SignatureField { id, .. } => id,
        PdField::Unknown { id, .. } => id,
    }
}

pub open spec fn field_dict_of<'a>(f: PdField<'a>) -> &'a CosDictionary {
    match f {
        PdField::TextField { dict, .. } => dict,
        PdField::CheckBox { dict, .. } => dict,
        PdField::RadioButton { dict, .. } => dict,
        PdField::ComboBox { dict, .. } => dict,
        PdField::ListBox { dict, .. } => dict,
        PdField::PushButton { dict, .. } => dict,
        PdField::SignatureField { dict, .. } => dict,
        PdField::Unknown { dict, .. } => dict,
    }
}

pub open spec fn is_paren(c: char) -> bool {
    c == '(' || c == ')'
}

/// The first position from `i` that does not hold a parenthesis.
pub open spec fn lead_from(s: Seq<char>, i: int) -> int
    decreases s.len() - i,
{
    if 0 <= i < s.len() && is_paren(s[i]) {
        lead_from(s, i + 1)
    } else {
        i
    }
}

/// The end of `s[..j]` once trailing parentheses are dropped.
pub open spec fn trail_from(s: Seq<char>, j: int) -> int
    decreases j,
{
    if 0 < j <= s.len() && is_paren(s[j - 1]) {
        trail_from(s, j - 1)
    } else {
        j
    }
}

/// `s` without the parentheses at either end.
pub open spec fn trim_parens(s: Seq<char>) -> Seq<char> {
    let a = lead_from(s, 0);
    if a >= s.len() {
        Seq::empty()
    } else {
        s.subrange(a, trail_from(s, s.len() as int))
    }
}

/// A field's name: its `/T` string as text, without surrounding
/// parentheses; empty when there is no `/T` string.
pub open spec fn field_name(d: Seq<(Seq<u8>, CosValue)>) -> Seq<char> {
    match dict_lookup(d, lit("T")) {
        Some(CosValue::Str(s)) => trim_parens(utf8_lossy(s)),
        _ => Seq::empty(),
    }
}

proof fn lemma_trail_from(s: Seq<char>, j: int, a: int)
    requires 0 <= a < j <= s.len(), !is_paren(s[a]),
    ensures a < trail_from(s, j) <= j,
    decreases j,
{
    if is_paren(s[j - 1]) {
        lemma_trail_from(s, j - 1, a);
    }
}

/// `s` without the parentheses at either end (see `trim_parens`).
pub fn trim_parens_exec(cs: &[char]) -> (r: String)
    ensures r@ == trim_parens(cs@),
{
    let n = cs.len();
    let mut a: usize = 0;
    while a < n && (cs[a] == '(' || cs[a] == ')')
        invariant a <= n, n == cs@.len(), lead_from(cs@, 0) == lead_from(cs@, a as int),
        decreases n - a,
    {
        a += 1;
    }
    if a >= n {
        return String::new();
    }
    let mut b: usize = n;
    proof { lemma_trail_from(cs@, n as int, a as int); }
    while b > a && (cs[b - 1] == '(' || cs[b - 1] == ')')
        invariant
            a < n, n == cs@.len(), a < b <= n, !is_paren(cs@[a as int]),
            trail_from(cs@, n as int) == trail_from(cs@, b as int),
        decreases b,
    {
        b -= 1;
    }
    let mut s = String::new();
    let mut i = a;
    while i < b
        invariant a <= i <= b, b <= cs@.len(), s@ == cs@.subrange(a as int, i as int),
        decreases b - i,
    {
        push_char(&mut s, cs[i]);
        proof { assert(s@ =~= cs@.subrange(a as int, i + 1)); }
        i += 1;
    }
    s
}

impl<'a> PdField<'a> {
    /// The field `id` with dictionary `dict`, of the kind its dictionary
    /// declares.
    pub fn new(id: ObjectId, dict: &'a CosDictionary, store: &'a ObjectStore) -> (r: Self)
        ensures
            field_id_of(r) == id,
            field_dict_of(r) == dict,
            kind_matches(r, dict@),
    {
        let flags: i64 = match dict.get_int(&CosName::named("Ff")) {
            Some(f) => f,
            None => 0,
        };
        match dict.get(&CosName::named("FT")) {
            Some(CosObject::Name(n)) => {
                let b = n.as_bytes();
                if eq_str(b, "Tx") {
                    PdField::TextField { id, dict, store }
                } else if eq_str(b, "Btn") {
                    if flags & 0x10000 != 0 {
                        PdField::PushButton { id, dict, store }
                    } else if flags & 0x8000 != 0 {
                        PdField::RadioButton { id, dict, store }
                    } else {
                        PdField::CheckBox { id, dict, store }
                    }
                } else if eq_str(b, "Ch") {
                    if flags & 0x20000 != 0 {
                        PdField::ComboBox { id, dict, store }
                    } else {
                        PdField::ListBox { id, dict, store }
                    }
                } else if eq_str(b, "Sig") {
                    PdField::SignatureField { id, dict, store }
                } else {
                    PdField::Unknown { id, dict, store }
                }
            }
            _ => PdField::Unknown { id, dict, store },
        }
    }

    pub fn id(&self) -> (r: ObjectId)
        ensures r == field_id_of(*self),
    {
        match self {
            PdField::TextField { id, .. } => *id,
            PdField::CheckBox { id, .. } => *id,
            PdField::RadioButton { id, .. } => *id,
            PdField::ComboBox { id, .. } => *id,
            PdField::ListBox { id, .. } => *id,
            PdField::PushButton { id, .. } => *id,
            PdField::SignatureField { id, .. } => *id,
            PdField::Unknown { id, .. } => *id,
        }
    }

    pub fn dictionary(&self) -> (r: &'a CosDictionary)
        ensures r == field_dict_of(*self),
    {
        match self {
            PdField::TextField { dict, .. } => *dict,
            PdField::CheckBox { dict, .. } => *dict,
            PdField::RadioButton { dict, .. } => *dict,
            PdField::ComboBox { dict, .. } => *dict,
            PdField::ListBox { dict, .. } => *dict,
            PdField::PushButton { dict, .. } => *dict,
            PdField::SignatureField { dict, .. } => *dict,
            PdField::Unknown { dict, .. } => *dict,
        }
    }

    /// The field's name (see `field_name`).
    pub fn fully_qualified_name(&self) -> (r: String)
        ensures r@ == field_name(field_dict_of(*self)@),
    {
        match self.dictionary().get(&CosName::named("T")) {
            Some(CosObject::String(s)) => {
                let cs = lossy_chars(s.as_slice());
                trim_parens_exec(cs.as_slice())
            }
            _ => String::new(),
        }
    }

    /// The field's value (`/V`).
    pub fn value(&self) -> (r: Option<&'a CosObject>)
        ensures
            match dict_lookup(field_dict_of(*self)@, lit("V")) {
                Some(v) => r is Some && r->Some_0@ == v,
                None => r is None,
            },
    {
        self.dictionary().get(&CosName::named("V"))
    }
}

/// A stored object with `key -> val` set when it is a dictionary.
pub open spec fn with_entry(v: Option<CosValue>, key: Seq<u8>, val: CosValue) -> Option<CosValue> {
    match v {
        Some(CosValue::Dict(d)) => Some(CosValue::Dict(dict_insert(d, key, val))),
        other => other,
    }
}

/// Sets `key -> val` in the stored dictionary `id`; anything else is left
/// as it is.
pub fn put_entry(doc: &mut Document, id: ObjectId, key: CosName, val: CosObject)
    ensures
        forall|q: ObjectId| #[trigger] store_find(final(doc).objects@, q)
            == if q == id { with_entry(store_find(old(doc).objects@, q), key.bytes@, val@) } else { store_find(old(doc).objects@, q) },
        final(doc).xref.trailer@ == old(doc).xref.trailer@,
        final(doc).xref@ == old(doc).xref@,
        final(doc).last_allocated == old(doc).last_allocated,
{
    match doc.take_object(id) {
        Some(CosObject::Dictionary(mut d)) => {
            d.insert(key, val);
            doc.insert_object(id, CosObject::Dictionary(d));
        }
        Some(other) => {
            doc.insert_object(id, other);
        }
        None => {}
    }
}

/// The store after setting field `field_id`'s `/V` to the string `v`.
pub open spec fn value_set_find(s: Seq<(ObjectId, CosValue)>, field_id: ObjectId, v: Seq<u8>, q: ObjectId) -> Option<CosValue> {
    if q == field_id {
        with_entry(store_find(s, q), lit("V"), CosValue::Str(v))
    } else {
        store_find(s, q)
    }
}

/// The form dictionary the catalog's `/AcroForm` reference names, read once
/// the field's value is set.
pub open spec fn acro_target(doc: Document, field_id: ObjectId, v: Seq<u8>) -> Option<ObjectId> {
    match doc.catalog_id_spec() {
        Some(cid) => match value_set_find(doc.objects@, field_id, v, cid) {
            Some(CosValue::Dict(c)) => match dict_lookup(c, lit("AcroForm")) {
                Some(CosValue::Ref(n, g)) => Some(ObjectId { object_number: n, generation: g }),
                _ => None,
            },
            _ => None,
        },
        None => None,
    }
}

/// Sets field `field_id`'s value (`/V`) to the string `string_value`, then
/// sets `/NeedAppearances true` in the form dictionary the catalog's
/// `/AcroForm` references, so that viewers redraw the field.
pub fn set_field_value(doc: &mut Document, field_id: ObjectId, string_value: &str)
    ensures
        final(doc).xref.trailer@ == old(doc).xref.trailer@,
        forall|q: ObjectId| #[trigger] store_find(final(doc).objects@, q) == (
            if Some(q) == acro_target(*old(doc), field_id, lit(string_value)) {
                with_entry(value_set_find(old(doc).objects@, field_id, lit(string_value), q), lit("NeedAppearances"), CosValue::Bool(true))
            } else {
                value_set_find(old(doc).objects@, field_id, lit(string_value), q)
            }),
{
    let ghost d0 = *doc;
    put_entry(doc, field_id, CosName::named("V"), CosObject::String(str_bytes(string_value)));
    let ghost d1 = *doc;
    proof {
        assert forall|q: ObjectId| #[trigger] store_find(d1.objects@, q) == value_set_find(d0.objects@, field_id, lit(string_value), q) by {}
    }
    let acro_id = match doc.catalog() {
        Some(c) => match c.get(&CosName::named("AcroForm")) {
            Some(CosObject::Reference(id)) => Some(*id),
            _ => None,
        },
        None => None,
    };
    proof {
        assert(d1.catalog_id_spec() == d0.catalog_id_spec());
        match d0.catalog_id_spec() {
            Some(cid) => { assert(store_find(d1.objects@, cid) == value_set_find(d0.objects@, field_id, lit(string_value), cid)); }
            None => {}
        }
        assert(acro_id == acro_target(d0, field_id, lit(string_value)));
    }
    match acro_id {
        Some(id) => put_entry(doc, id, CosName::named("NeedAppearances"), CosObject::Bool(true)),
        None => {}
    }
}

/// The text of the strings among `a`, in order.
pub open spec fn string_texts(a: Seq<CosValue>) -> Seq<Seq<char>>
    decreases a.len(),
{
    if a.len() == 0 {
        Seq::empty()
    } else {
        string_texts(a.drop_last()) + match a.last() {
            CosValue::Str(s) => seq![utf8_lossy(s)],
            _ => Seq::empty(),
        }
    }
}

/// Lines joined with `\n` between them.
pub open spec fn join_lines(ls: Seq<Seq<char>>) -> Seq<char>
    decreases ls.len(),
{
    if ls.len() == 0 {
        Seq::empty()
    } else if ls.len() == 1 {
        ls[0]
    } else {
        join_lines(ls.drop_last()) + seq!['\n'] + ls.last()
    }
}

/// The exported value of a field: a string's text; a name's text unless it
/// is `Off` (or not UTF-8); the strings of an array joined by newlines
/// (none when it holds no strings); nothing otherwise.
pub open spec fn export_value(d: Seq<(Seq<u8>, CosValue)>) -> Option<Seq<char>> {
    match dict_lookup(d, lit("V")) {
        Some(CosValue::Str(b)) => Some(utf8_lossy(b)),
        Some(CosValue::Name(n)) => match utf8_text(n) {
            Some(t) => if t == "Off"@ { None } else { Some(t) },
            None => None,
        },
        Some(CosValue::Array(a)) => if string_texts(a).len() == 0 { None } else { Some(join_lines(string_texts(a))) },
        _ => None,
    }
}

/// The value of a field as written to exported form data (see `export_value`).
pub fn get_field_value_for_export(field_dict: &CosDictionary) -> (r: Option<String>)
    ensures
        match r {
            Some(s) => export_value(field_dict@) == Some(s@),
            None => export_value(field_dict@) is None,
        },
{
    let v = match field_dict.get(&CosName::named("V")) {
        Some(v) => v,
        None => return None,
    };
    match v {
        CosObject::String(bytes) => Some(crate::text::from_utf8_lossy(bytes.as_slice())),
        CosObject::Name(name) => match from_utf8_strict(name.as_bytes()) {
            Some(t) => if crate::text::str_eq(t.as_str(), "Off") { None } else { Some(t) },
            None => None,
        },
        CosObject::Array(arr) => {
            let ghost a = crate::cos::view_objs(arr@);
            proof { crate::cos::lemma_view_objs(arr@); }
            let mut out = String::new();
            let mut count: usize = 0;
            let mut i: usize = 0;
            while i < arr.len()
                invariant
                    i <= arr@.len(),
                    a == crate::cos::view_objs(arr@),
                    a.len() == arr@.len(),
                    forall|q: int| 0 <= q < arr@.len() ==> a[q] == crate::cos::view_obj(#[trigger] arr@[q]),
                    count == string_texts(a.take(i as int)).len(),
                    count <= i,
                    out@ == join_lines(string_texts(a.take(i as int))),
                decreases arr.len() - i,
            {
                proof { assert(a.take(i + 1).drop_last() =~= a.take(i as int)); }
                match &arr[i] {
                    CosObject::String(b) => {
                        let t = crate::text::from_utf8_lossy(b.as_slice());
                        let ghost before = out@;
                        if count > 0 {
                            push_char(&mut out, '\n');
                        }
                        push_str(&mut out, t.as_str());
                        proof {
                            let ls = string_texts(a.take(i + 1));
                            assert(ls =~= string_texts(a.take(i as int)).push(t@));
                            assert(ls.drop_last() =~= string_texts(a.take(i as int)));
                            if count == 0 {
                                assert(out@ =~= t@);
                            } else {
                                assert(out@ =~= before + seq!['\n'] + t@);
                            }
                        }
                        count += 1;
                    }
                    _ => {
                        proof { assert(string_texts(a.take(i + 1)) =~= string_texts(a.take(i as int))); }
                    }
                }
                i += 1;
            }
            proof { assert(a.take(arr@.len() as int) =~= a); }
            if count == 0 { None } else { Some(out) }
        }
        _ => None,
    }
}

} // verus!

//! Interactive forms: the form dictionary (`/AcroForm`), its fields and
//! widgets, its XFA packets, and form data in and out.

pub mod appearance;
pub mod export;
pub mod field;
pub mod flatten;
pub mod import;
pub mod widget;
pub mod xfa;

pub use export::{export_fdf, export_xfdf};
pub use field::{PdField, get_field_value_for_export, set_field_value};
pub use widget::PdWidget;
pub use xfa::{XfaForm, XfaPacket};

use vstd::prelude::*;
use crate::bytes::lit;
use crate::cos::{CosDictionary, CosName, CosObject, CosValue, ObjectId, dict_lookup, view_obj, view_objs};
use crate::document::{Document, ObjectStore, resolve_spec, store_find};
use crate::forms::field::{field_dict_of, field_id_of, field_name, kind_matches};

verus! {

/// The form dictionary of a document, with the store its references
/// resolve in.
#[derive(Debug, Clone, Copy)]
pub struct PdAcroForm<'a> {
    pub dict: &'a CosDictionary,
    pub store: &'a ObjectStore,
}

/// The fields among `kids`: the references that name stored dictionaries,
/// with those dictionaries, in order.
pub open spec fn fields_from(kids: Seq<CosValue>, s: Seq<(ObjectId, CosValue)>) -> Seq<(ObjectId, Seq<(Seq<u8>, CosValue)>)>
    decreases kids.len(),
{
    if kids.len() == 0 {
        Seq::empty()
    } else {
        fields_from(kids.drop_last(), s) + match kids.last() {
            CosValue::Ref(n, g) => match store_find(s, ObjectId { object_number: n, generation: g }) {
                Some(CosValue::Dict(fd)) => seq![(ObjectId { object_number: n, generation: g }, fd)],
                _ => Seq::empty(),
            },
            _ => Seq::empty(),
        }
    }
}

/// The fields of a form dictionary: those of its `/Fields` array.
pub open spec fn form_fields(d: Seq<(Seq<u8>, CosValue)>, s: Seq<(ObjectId, CosValue)>) -> Seq<(ObjectId, Seq<(Seq<u8>, CosValue)>)> {
    match dict_lookup(d, lit("Fields")) {
        Some(CosValue::Array(kids)) => fields_from(kids, s),
        _ => Seq::empty(),
    }
}

/// `f` is the field `(id, d)` of a form.
pub open spec fn field_is(f: PdField, e: (ObjectId, Seq<(Seq<u8>, CosValue)>)) -> bool {
    field_id_of(f) == e.0 && field_dict_of(f)@ == e.1 && kind_matches(f, e.1)
}

impl<'a> PdAcroForm<'a> {
    pub fn new(dict: &'a CosDictionary, store: &'a ObjectStore) -> (r: Self)
        ensures r.dict == dict, r.store == store,
    {
        PdAcroForm { dict, store }
    }

    pub fn dictionary(&self) -> (r: &'a CosDictionary)
        ensures r == self.dict,
    {
        self.dict
    }

    /// The form's fields (see `form_fields`).
    pub fn fields(&self) -> (r: Vec<PdField<'a>>)
        ensures
            r@.len() == form_fields(self.dict@, self.store@).len(),
            forall|k: int| 0 <= k < r@.len() ==> field_is(#[trigger] r@[k], form_fields(self.dict@, self.store@)[k]),
    {
        let mut out: Vec<PdField<'a>> = Vec::new();
        match self.dict.get(&CosName::named("Fields")) {
            Some(CosObject::Array(kids)) => {
                let ghost a = view_objs(kids@);
                proof { crate::cos::lemma_view_objs(kids@); }
                let mut i: usize = 0;
                while i < kids.len()
                    invariant
                        i <= kids@.len(),
                        a == view_objs(kids@),
                        a.len() == kids@.len(),
                        forall|q: int| 0 <= q < kids@.len() ==> a[q] == view_obj(#[trigger] kids@[q]),
                        out@.len() == fields_from(a.take(i as int), self.store@).len(),
                        forall|k: int| 0 <= k < out@.len() ==> field_is(#[trigger] out@[k], fields_from(a.take(i as int), self.store@)[k]),
                    decreases kids.len() - i,
                {
                    proof { assert(a.take(i + 1).drop_last() =~= a.take(i as int)); }
                    let ghost prev = fields_from(a.take(i as int), self.store@);
                    match &kids[i] {
                        CosObject::Reference(id) => match self.store.get(id) {
                            Some(CosObject::Dictionary(fd)) => {
                                let f = PdField::new(*id, fd, self.store);
                                out.push(f);
                                proof {
                                    assert(fields_from(a.take(i + 1), self.store@) =~= prev.push((*id, fd@)));
                                }
                            }
                            _ => {
                                proof { assert(fields_from(a.take(i + 1), self.store@) =~= prev); }
                            }
                        },
                        _ => {
                            proof { assert(fields_from(a.take(i + 1), self.store@) =~= prev); }
                        }
                    }
                    i += 1;
                }
                proof { assert(a.take(kids@.len() as int) =~= a); }
            }
            _ => {}
        }
        out
    }

    /// The first field whose name (see `field_name`) is
    /// `fully_qualified_name`.
    pub fn get_field(&self, fully_qualified_name: &str) -> (r: Option<PdField<'a>>)
        ensures
            ({
                let ff = form_fields(self.dict@, self.store@);
                match r {
                    Some(f) => exists|k: int| 0 <= k < ff.len() && field_is(f, #[trigger] ff[k])
                        && field_name(ff[k].1) == fully_qualified_name@
                        && forall|j: int| 0 <= j < k ==> field_name((#[trigger] ff[j]).1) != fully_qualified_name@,
                    None => forall|k: int| 0 <= k < ff.len() ==> field_name((#[trigger] ff[k]).1) != fully_qualified_name@,
                }
            }),
    {
        let fields = self.fields();
        let ghost ff = form_fields(self.dict@, self.store@);
        let mut i: usize = 0;
        while i < fields.len()
            invariant
                i <= fields@.len(),
                fields@.len() == ff.len(),
                ff == form_fields(self.dict@, self.store@),
                forall|k: int| 0 <= k < fields@.len() ==> field_is(#[trigger] fields@[k], ff[k]),
                forall|j: int| 0 <= j < i ==> field_name((#[trigger] ff[j]).1) != fully_qualified_name@,
            decreases fields.len() - i,
        {
            let name = fields[i].fully_qualified_name();
            proof { assert(field_is(fields@[i as int], ff[i as int])); }
            if crate::text::str_eq(name.as_str(), fully_qualified_name) {
                let f = fields[i];
                proof { assert(field_is(f, ff[i as int])); }
                return Some(f);
            }
            i += 1;
        }
        None
    }

    /// `true` when the form dictionary has an `/XFA` entry.
    pub fn has_xfa(&self) -> (r: bool)
        ensures r == dict_lookup(self.dict@, lit("XFA")) is Some,
    {
        self.dict.get(&CosName::named("XFA")).is_some()
    }

    /// `true` for a form with both fields and an `/XFA` entry.
    pub fn is_hybrid_xfa(&self) -> (r: bool)
        ensures r == (dict_lookup(self.dict@, lit("XFA")) is Some && form_fields(self.dict@, self.store@).len() > 0),
    {
        self.has_xfa() && self.fields().len() > 0
    }
}

/// The form dictionary of a document: what the catalog's `/AcroForm` entry
/// resolves to, when that is a dictionary.
pub open spec fn acro_form_dict(doc: Document) -> Option<Seq<(Seq<u8>, CosValue)>> {
    match doc.catalog_dict() {
        Some(c) => match dict_lookup(c, lit("AcroForm")) {
            Some(v) => match resolve_spec(doc.objects@, v, 15) {
                Some(CosValue::Dict(d)) => Some(d),
                _ => None,
            },
            None => None,
        },
        None => None,
    }
}

impl Document {
    /// The document's interactive form (see `acro_form_dict`).
    pub fn acro_form(&self) -> (r: Option<PdAcroForm<'_>>)
        ensures
            match acro_form_dict(*self) {
                Some(d) => r is Some && r->Some_0.dict@ == d && r->Some_0.store == &self.objects,
                None => r is None,
            },
    {
        let catalog = match self.catalog() {
            Some(c) => c,
            None => return None,
        };
        let entry = match catalog.get(&CosName::named("AcroForm")) {
            Some(v) => v,
            None => return None,
        };
        match self.objects.resolve(entry) {
            Some(CosObject::Dictionary(d)) => Some(PdAcroForm::new(d, &self.objects)),
            _ => None,
        }
    }
}

} // verus!

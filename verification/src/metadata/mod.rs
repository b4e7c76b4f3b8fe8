//! Document metadata: the `/Info` dictionary and the XMP packet.

pub mod sync;
pub mod xmp;

use vstd::prelude::*;
use crate::bytes::{lit, clone_bytes};
use crate::cos::{CosDictionary, CosName, CosObject, CosStream, CosValue, ObjectId, dict_insert, dict_lookup};
use crate::document::{Document, PdfError, PdfResult, store_find};
use crate::io::{decode_spec, decode_stream, Decoded};
use crate::metadata::sync::{SyncPolicy, date_cuts_ok, default_policy, pdf_date_to_xmp_checked, xmp_date};
use crate::metadata::xmp::{XmpFields, XmpMetadata, basic_xmp, build_basic_xmp, field_texts, list_property, packet_of, simple_property};
use crate::text::utf8_text;
use crate::text::{from_utf8_lossy, push_decimal, push_str, utf8_lossy};
use vstd::string::StringSliceAdditionalSpecFns;

verus! {

// ---------------------------------------------------------------------------
// Reading /Info
// ---------------------------------------------------------------------------

/// Read access to the `/Info` dictionary (absent when the document has none).
#[derive(Debug, Clone, Copy)]
pub struct DocumentInfo<'a> {
    pub dict: Option<&'a CosDictionary>,
}

/// The text of an `/Info` entry: a string, read as UTF-8 lossily.
pub open spec fn info_text(d: Option<Seq<(Seq<u8>, CosValue)>>, key: Seq<u8>) -> Option<Seq<char>> {
    match d {
        Some(d) => match dict_lookup(d, key) {
            Some(CosValue::Str(b)) => Some(utf8_lossy(b)),
            _ => None,
        },
        None => None,
    }
}

pub open spec fn info_entries(i: DocumentInfo) -> Option<Seq<(Seq<u8>, CosValue)>> {
    match i.dict {
        Some(d) => Some(d@),
        None => None,
    }
}

pub open spec fn opt_text(o: Option<String>) -> Option<Seq<char>> {
    match o {
        Some(s) => Some(s@),
        None => None,
    }
}

impl<'a> DocumentInfo<'a> {
    fn get_text(&self, key: &str) -> (r: Option<String>)
        ensures opt_text(r) == info_text(info_entries(*self), lit(key)),
    {
        let d = match self.dict {
            Some(d) => d,
            None => return None,
        };
        match d.get(&CosName::named(key)) {
            Some(CosObject::String(b)) => Some(from_utf8_lossy(b.as_slice())),
            _ => None,
        }
    }

    pub fn title(&self) -> (r: Option<String>)
        ensures opt_text(r) == info_text(info_entries(*self), lit("Title")),
    {
        self.get_text("Title")
    }

    pub fn author(&self) -> (r: Option<String>)
        ensures opt_text(r) == info_text(info_entries(*self), lit("Author")),
    {
        self.get_text("Author")
    }

    pub fn subject(&self) -> (r: Option<String>)
        ensures opt_text(r) == info_text(info_entries(*self), lit("Subject")),
    {
        self.get_text("Subject")
    }

    pub fn keywords(&self) -> (r: Option<String>)
        ensures opt_text(r) == info_text(info_entries(*self), lit("Keywords")),
    {
        self.get_text("Keywords")
    }

    pub fn creator(&self) -> (r: Option<String>)
        ensures opt_text(r) == info_text(info_entries(*self), lit("Creator")),
    {
        self.get_text("Creator")
    }

    pub fn producer(&self) -> (r: Option<String>)
        ensures opt_text(r) == info_text(info_entries(*self), lit("Producer")),
    {
        self.get_text("Producer")
    }

    pub fn creation_date(&self) -> (r: Option<String>)
        ensures opt_text(r) == info_text(info_entries(*self), lit("CreationDate")),
    {
        self.get_text("CreationDate")
    }

    pub fn mod_date(&self) -> (r: Option<String>)
        ensures opt_text(r) == info_text(info_entries(*self), lit("ModDate")),
    {
        self.get_text("ModDate")
    }
}

// ---------------------------------------------------------------------------
// Writing /Info
// ---------------------------------------------------------------------------

/// Write access to the `/Info` dictionary stored under `info_id`.
pub struct DocumentInfoMut<'a> {
    pub doc: &'a mut Document,
    pub info_id: ObjectId,
}

/// The text of the error for an `/Info` object that is not a dictionary.
pub open spec fn not_a_dict_message(id: ObjectId) -> Seq<char> {
    "/Info object ObjectId { object_number: "@ + crate::text::decimal_text(id.object_number as int)
        + ", generation: "@ + crate::text::decimal_text(id.generation as int) + " } is not a dictionary"@
}

/// What setting `key` to `value` does to the stored objects: the `/Info`
/// dictionary gets the entry, nothing else changes.
pub open spec fn info_set(
    before: Seq<(ObjectId, CosValue)>,
    after: Seq<(ObjectId, CosValue)>,
    id: ObjectId,
    key: Seq<u8>,
    value: Seq<u8>,
) -> bool {
    &&& forall|q: ObjectId| q != id ==> #[trigger] store_find(after, q) == store_find(before, q)
    &&& match store_find(before, id) {
        Some(CosValue::Dict(d)) => store_find(after, id) == Some(CosValue::Dict(dict_insert(d, key, CosValue::Str(value)))),
        _ => store_find(after, id) == store_find(before, id),
    }
}

/// The outcome of setting an entry: `Ok` when the `/Info` object is a
/// dictionary, an `Xref` error when it is missing, a `Parse` error when it is
/// something else.
pub open spec fn info_set_result(before: Seq<(ObjectId, CosValue)>, id: ObjectId, r: PdfResult<()>) -> bool {
    match store_find(before, id) {
        Some(CosValue::Dict(_)) => r is Ok,
        None => r matches Err(PdfError::Xref { object_id: Some(o) }) && o == id,
        Some(_) => r matches Err(PdfError::Parse { offset: None, context: c }) && c@ == not_a_dict_message(id),
    }
}

/// Sets `key` to the text `value` in the stored dictionary `id` (see
/// `info_set` and `info_set_result`).
fn set_info_entry(doc: &mut Document, id: ObjectId, key: &str, value: &str) -> (r: PdfResult<()>)
    ensures
        info_set(old(doc).objects@, final(doc).objects@, id, lit(key), value.spec_bytes()),
        info_set_result(old(doc).objects@, id, r),
        final(doc).xref@ == old(doc).xref@,
        final(doc).xref.trailer@ == old(doc).xref.trailer@,
    {
        match doc.take_object(id) {
            None => Err(PdfError::Xref { object_id: Some(id) }),
            Some(CosObject::Dictionary(mut d)) => {
                let ghost d0 = d@;
                d.insert(CosName::named(key), CosObject::String(clone_bytes(value.as_bytes())));
                doc.insert_object(id, CosObject::Dictionary(d));
                Ok(())
            }
            Some(other) => {
                doc.insert_object(id, other);
                let mut m = String::new();
                push_str(&mut m, "/Info object ObjectId { object_number: ");
                push_decimal(&mut m, id.object_number as i64);
                push_str(&mut m, ", generation: ");
                push_decimal(&mut m, id.generation as i64);
                push_str(&mut m, " } is not a dictionary");
                proof { assert(m@ =~= not_a_dict_message(id)); }
                Err(PdfError::Parse { offset: None, context: m })
            }
        }
    }


impl<'a> DocumentInfoMut<'a> {
    fn set_text(&mut self, key: &str, value: &str) -> (r: PdfResult<()>)
        ensures
            final(self).info_id == old(self).info_id,
            info_set((*old(self).doc).objects@, (*final(self).doc).objects@, old(self).info_id, lit(key), value.spec_bytes()),
            info_set_result((*old(self).doc).objects@, old(self).info_id, r),
            (*final(self).doc).xref@ == (*old(self).doc).xref@,
            (*final(self).doc).xref.trailer@ == (*old(self).doc).xref.trailer@,
    {
        set_info_entry(self.doc, self.info_id, key, value)
    }

    pub fn set_title(&mut self, value: &str) -> (r: PdfResult<()>)
        ensures
            final(self).info_id == old(self).info_id,
            info_set((*old(self).doc).objects@, (*final(self).doc).objects@, old(self).info_id, lit("Title"), value.spec_bytes()),
            info_set_result((*old(self).doc).objects@, old(self).info_id, r),
            (*final(self).doc).xref.trailer@ == (*old(self).doc).xref.trailer@,
    {
        self.set_text("Title", value)
    }

    pub fn set_author(&mut self, value: &str) -> (r: PdfResult<()>)
        ensures
            final(self).info_id == old(self).info_id,
            info_set((*old(self).doc).objects@, (*final(self).doc).objects@, old(self).info_id, lit("Author"), value.spec_bytes()),
            info_set_result((*old(self).doc).objects@, old(self).info_id, r),
            (*final(self).doc).xref.trailer@ == (*old(self).doc).xref.trailer@,
    {
        self.set_text("Author", value)
    }

    pub fn set_subject(&mut self, value: &str) -> (r: PdfResult<()>)
        ensures
            final(self).info_id == old(self).info_id,
            info_set((*old(self).doc).objects@, (*final(self).doc).objects@, old(self).info_id, lit("Subject"), value.spec_bytes()),
            info_set_result((*old(self).doc).objects@, old(self).info_id, r),
            (*final(self).doc).xref.trailer@ == (*old(self).doc).xref.trailer@,
    {
        self.set_text("Subject", value)
    }

    pub fn set_keywords(&mut self, value: &str) -> (r: PdfResult<()>)
        ensures
            final(self).info_id == old(self).info_id,
            info_set((*old(self).doc).objects@, (*final(self).doc).objects@, old(self).info_id, lit("Keywords"), value.spec_bytes()),
            info_set_result((*old(self).doc).objects@, old(self).info_id, r),
            (*final(self).doc).xref.trailer@ == (*old(self).doc).xref.trailer@,
    {
        self.set_text("Keywords", value)
    }

    pub fn set_creator(&mut self, value: &str) -> (r: PdfResult<()>)
        ensures
            final(self).info_id == old(self).info_id,
            info_set((*old(self).doc).objects@, (*final(self).doc).objects@, old(self).info_id, lit("Creator"), value.spec_bytes()),
            info_set_result((*old(self).doc).objects@, old(self).info_id, r),
            (*final(self).doc).xref.trailer@ == (*old(self).doc).xref.trailer@,
    {
        self.set_text("Creator", value)
    }

    pub fn set_producer(&mut self, value: &str) -> (r: PdfResult<()>)
        ensures
            final(self).info_id == old(self).info_id,
            info_set((*old(self).doc).objects@, (*final(self).doc).objects@, old(self).info_id, lit("Producer"), value.spec_bytes()),
            info_set_result((*old(self).doc).objects@, old(self).info_id, r),
            (*final(self).doc).xref.trailer@ == (*old(self).doc).xref.trailer@,
    {
        self.set_text("Producer", value)
    }

    pub fn set_creation_date(&mut self, value: &str) -> (r: PdfResult<()>)
        ensures
            final(self).info_id == old(self).info_id,
            info_set((*old(self).doc).objects@, (*final(self).doc).objects@, old(self).info_id, lit("CreationDate"), value.spec_bytes()),
            info_set_result((*old(self).doc).objects@, old(self).info_id, r),
            (*final(self).doc).xref.trailer@ == (*old(self).doc).xref.trailer@,
    {
        self.set_text("CreationDate", value)
    }

    pub fn set_mod_date(&mut self, value: &str) -> (r: PdfResult<()>)
        ensures
            final(self).info_id == old(self).info_id,
            info_set((*old(self).doc).objects@, (*final(self).doc).objects@, old(self).info_id, lit("ModDate"), value.spec_bytes()),
            info_set_result((*old(self).doc).objects@, old(self).info_id, r),
            (*final(self).doc).xref.trailer@ == (*old(self).doc).xref.trailer@,
    {
        self.set_text("ModDate", value)
    }
}

// ---------------------------------------------------------------------------
// The document's metadata
// ---------------------------------------------------------------------------

/// The `/Info` dictionary: the trailer's `/Info` reference to a stored
/// dictionary.
pub open spec fn info_dict(doc: &Document) -> Option<Seq<(Seq<u8>, CosValue)>> {
    info_in(doc.xref.trailer@, doc.objects@)
}

/// The `/Info` dictionary of a store whose trailer is `trailer`.
pub open spec fn info_in(trailer: Seq<(Seq<u8>, CosValue)>, store: Seq<(ObjectId, CosValue)>) -> Option<Seq<(Seq<u8>, CosValue)>> {
    match dict_lookup(trailer, lit("Info")) {
        Some(CosValue::Ref(n, g)) => match store_find(store, ObjectId { object_number: n, generation: g }) {
            Some(CosValue::Dict(d)) => Some(d),
            _ => None,
        },
        _ => None,
    }
}

/// Reading back what was set: once the `/Info` dictionary the trailer
/// names gets `key -> value` (see `info_set`), reading `key` gives the text
/// of `value`, and every other key reads as before.
pub proof fn lemma_info_read_back(before: Seq<(ObjectId, CosValue)>, after: Seq<(ObjectId, CosValue)>,
    trailer: Seq<(Seq<u8>, CosValue)>, id: ObjectId, key: Seq<u8>, value: Seq<u8>)
    requires
        dict_lookup(trailer, lit("Info")) == Some(CosValue::Ref(id.object_number, id.generation)),
        store_find(before, id) matches Some(CosValue::Dict(_)),
        info_set(before, after, id, key, value),
    ensures
        info_text(info_in(trailer, after), key) == Some(utf8_lossy(value)),
        forall|k: Seq<u8>| k != key ==> #[trigger] info_text(info_in(trailer, after), k) == info_text(info_in(trailer, before), k),
{
    lemma_info_set_entry(before, after, trailer, id, key, value);
}

/// A setter then its getter: once the `/Info` dictionary the trailer
/// names gets `key` set to the text `text` (its UTF-8 bytes, as the setters
/// store a `&str`), reading `key` gives `text` back, and every other key
/// reads as before.
pub proof fn lemma_info_set_then_get(before: Seq<(ObjectId, CosValue)>, after: Seq<(ObjectId, CosValue)>,
    trailer: Seq<(Seq<u8>, CosValue)>, id: ObjectId, key: Seq<u8>, text: Seq<char>)
    requires
        dict_lookup(trailer, lit("Info")) == Some(CosValue::Ref(id.object_number, id.generation)),
        store_find(before, id) matches Some(CosValue::Dict(_)),
        info_set(before, after, id, key, vstd::utf8::encode_utf8(text)),
    ensures
        info_text(info_in(trailer, after), key) == Some(text),
        forall|k: Seq<u8>| k != key ==> #[trigger] info_text(info_in(trailer, after), k) == info_text(info_in(trailer, before), k),
{
    lemma_info_set_entry(before, after, trailer, id, key, vstd::utf8::encode_utf8(text));
    crate::text::lemma_utf8_of_text(text);
}

proof fn lemma_info_set_entry(before: Seq<(ObjectId, CosValue)>, after: Seq<(ObjectId, CosValue)>,
    trailer: Seq<(Seq<u8>, CosValue)>, id: ObjectId, key: Seq<u8>, value: Seq<u8>)
    requires
        dict_lookup(trailer, lit("Info")) == Some(CosValue::Ref(id.object_number, id.generation)),
        store_find(before, id) matches Some(CosValue::Dict(_)),
        info_set(before, after, id, key, value),
    ensures
        info_text(info_in(trailer, after), key) == Some(utf8_lossy(value)),
        forall|k: Seq<u8>| k != key ==> #[trigger] info_text(info_in(trailer, after), k) == info_text(info_in(trailer, before), k),
{
    let d = store_find(before, id)->Some_0->Dict_0;
    crate::cos::lemma_lookup_insert(d, key, CosValue::Str(value), key);
    assert forall|k: Seq<u8>| k != key implies #[trigger] info_text(info_in(trailer, after), k) == info_text(info_in(trailer, before), k) by {
        crate::cos::lemma_lookup_insert(d, key, CosValue::Str(value), k);
    }
}

/// The XMP stream's dictionary and data: the catalog's `/Metadata`, a
/// stream given directly or by reference.
pub open spec fn metadata_stream(doc: &Document) -> Option<(Seq<(Seq<u8>, CosValue)>, Seq<u8>)> {
    match doc.catalog_dict() {
        Some(cat) => match dict_lookup(cat, lit("Metadata")) {
            Some(CosValue::Ref(n, g)) => match store_find(doc.objects@, ObjectId { object_number: n, generation: g }) {
                Some(CosValue::Stream(d, data)) => Some((d, data)),
                _ => None,
            },
            Some(CosValue::Stream(d, data)) => Some((d, data)),
            _ => None,
        },
        None => None,
    }
}

/// The entries of a metadata stream written for `xml`.
pub open spec fn metadata_dict(xml: Seq<u8>) -> Seq<(Seq<u8>, CosValue)> {
    dict_insert(dict_insert(dict_insert(Seq::empty(), lit("Type"), CosValue::Name(lit("Metadata"))),
        lit("Subtype"), CosValue::Name(lit("XML"))), lit("Length"), CosValue::Integer((xml.len() as i64) as int))
}

/// `after` is `before` with the XMP packet `xml` stored: as a stream under
/// `mid` (the id the catalog's `/Metadata` referred to, or a fresh one), and
/// the catalog pointing at it.
pub open spec fn xmp_stored(before: &Document, after: &Document, cat: ObjectId, mid: ObjectId, xml: Seq<u8>) -> bool {
    &&& match dict_lookup(match store_find(before.objects@, cat) {
            Some(CosValue::Dict(c)) => c,
            _ => Seq::empty(),
        }, lit("Metadata")) {
        Some(CosValue::Ref(n, g)) => store_find(before.objects@, cat) matches Some(CosValue::Dict(_))
            && mid == ObjectId { object_number: n, generation: g },
        _ => mid.generation == 0 && (store_find(before.objects@, cat) is Some && cat.object_number < u32::MAX ==> mid != cat),
    }
    &&& mid != cat ==> store_find(after.objects@, mid) == Some(CosValue::Stream(metadata_dict(xml), xml))
    &&& mid != cat ==> store_find(after.objects@, cat) == match store_find(before.objects@, cat) {
        Some(CosValue::Dict(c)) => Some(CosValue::Dict(dict_insert(c, lit("Metadata"), CosValue::Ref(mid.object_number, mid.generation)))),
        other => other,
    }
    &&& forall|q: ObjectId| q != mid && q != cat ==> #[trigger] store_find(after.objects@, q) == store_find(before.objects@, q)
    &&& after.xref.trailer@ == before.xref.trailer@
}

/// Reading back a stored packet: once `xml` is stored (see `xmp_stored`,
/// which `set_xmp_metadata_raw` ensures) in a document whose catalog is a
/// dictionary, and not under the catalog's own id, the catalog's
/// `/Metadata` stream holds exactly the bytes of `xml`, unfiltered, and
/// they read as the text `xml`: `xmp_metadata` then gives `xml` as its raw
/// packet.
pub proof fn lemma_xmp_read_back(before: &Document, after: &Document, mid: ObjectId, xml: &str)
    requires
        before.catalog_dict() is Some,
        mid != before.catalog_id_spec()->Some_0,
        xmp_stored(before, after, before.catalog_id_spec()->Some_0, mid, xml.spec_bytes()),
    ensures
        metadata_stream(after) == Some((metadata_dict(xml.spec_bytes()), xml.spec_bytes())),
        decode_spec(xml.spec_bytes(), dict_lookup(metadata_dict(xml.spec_bytes()), lit("Filter"))) == Decoded::Out(xml.spec_bytes()),
        utf8_text(xml.spec_bytes()) == Some(xml@),
{
    let cat = before.catalog_id_spec()->Some_0;
    let c = before.catalog_dict()->Some_0;
    let x = xml.spec_bytes();
    crate::cos::lemma_lookup_insert(c, lit("Metadata"), CosValue::Ref(mid.object_number, mid.generation), lit("Metadata"));
    assert(after.catalog_dict() == Some(dict_insert(c, lit("Metadata"), CosValue::Ref(mid.object_number, mid.generation))));
    reveal_strlit("Filter");
    reveal_strlit("Type");
    reveal_strlit("Subtype");
    reveal_strlit("Length");
    vstd::string::is_ascii_spec_bytes("Filter");
    vstd::string::is_ascii_spec_bytes("Type");
    vstd::string::is_ascii_spec_bytes("Subtype");
    vstd::string::is_ascii_spec_bytes("Length");
    let d0 = dict_insert(Seq::<(Seq<u8>, CosValue)>::empty(), lit("Type"), CosValue::Name(lit("Metadata")));
    let d1 = dict_insert(d0, lit("Subtype"), CosValue::Name(lit("XML")));
    crate::cos::lemma_lookup_insert(Seq::empty(), lit("Type"), CosValue::Name(lit("Metadata")), lit("Filter"));
    crate::cos::lemma_lookup_insert(d0, lit("Subtype"), CosValue::Name(lit("XML")), lit("Filter"));
    crate::cos::lemma_lookup_insert(d1, lit("Length"), CosValue::Integer((x.len() as i64) as int), lit("Filter"));
    assert(lit("Filter")[0] != lit("Type")[0]);
    assert(lit("Filter").len() != lit("Subtype").len());
    assert(lit("Filter")[0] != lit("Length")[0]);
    crate::text::lemma_utf8_of_text(xml@);
}

/// Setting a raw packet, then reading it: once `set_xmp_metadata_raw(xml)`
/// has stored `xml` (its `Ok` outcome, `xmp_stored`) in a document whose
/// catalog is a dictionary that does not name itself as `/Metadata`, the
/// packet `xmp_metadata` reads back is `xml`.
pub proof fn lemma_set_then_read_xmp(before: &Document, after: &Document, xml: &str)
    requires
        before.catalog_dict() is Some,
        before.catalog_id_spec()->Some_0.object_number < u32::MAX,
        dict_lookup(before.catalog_dict()->Some_0, lit("Metadata"))
            != Some(CosValue::Ref(before.catalog_id_spec()->Some_0.object_number, before.catalog_id_spec()->Some_0.generation)),
        exists|mid: ObjectId| xmp_stored(before, after, before.catalog_id_spec()->Some_0, mid, xml.spec_bytes()),
    ensures
        xmp_text_of(after) == Some(xml@),
{
    let cat = before.catalog_id_spec()->Some_0;
    let mid = choose|mid: ObjectId| xmp_stored(before, after, cat, mid, xml.spec_bytes());
    assert(mid != cat);
    lemma_xmp_read_back(before, after, mid, xml);
}

/// A setter, then its getter, on the document: once the `/Info` dictionary
/// the trailer names (as `document_info_mut` leaves it) gets `key` set to
/// `value` (the setters' `info_set`), with the trailer unchanged, the
/// getter for `key` on `document_info` reads `value`, and every other key
/// reads as before.
pub proof fn lemma_setter_then_getter(before: &Document, after: &Document, id: ObjectId, key: Seq<u8>, value: &str)
    requires
        dict_lookup(before.xref.trailer@, lit("Info")) == Some(CosValue::Ref(id.object_number, id.generation)),
        store_find(before.objects@, id) matches Some(CosValue::Dict(_)),
        info_set(before.objects@, after.objects@, id, key, value.spec_bytes()),
        after.xref.trailer@ == before.xref.trailer@,
    ensures
        info_text(info_dict(after), key) == Some(value@),
        forall|k: Seq<u8>| k != key ==> #[trigger] info_text(info_dict(after), k) == info_text(info_dict(before), k),
{
    lemma_info_set_then_get(before.objects@, after.objects@, before.xref.trailer@, id, key, value@);
}

/// The `/Info` entries writing starts from: the dictionary the trailer's
/// `/Info` refers to or holds, else none.
pub open spec fn info_base(d: &Document) -> Seq<(Seq<u8>, CosValue)> {
    match dict_lookup(d.xref.trailer@, lit("Info")) {
        Some(CosValue::Ref(n, g)) => match store_find(d.objects@, ObjectId { object_number: n, generation: g }) {
            Some(CosValue::Dict(d)) => d,
            _ => Seq::empty(),
        },
        Some(CosValue::Dict(d)) => d,
        _ => Seq::empty(),
    }
}

impl Document {
    /// The `/Info` dictionary, for reading.
    pub fn document_info(&self) -> (r: DocumentInfo<'_>)
        ensures info_entries(r) == info_dict(self),
    {
        let dict = match self.xref.trailer.get(&CosName::named("Info")) {
            Some(CosObject::Reference(id)) => match self.objects.get(id) {
                Some(CosObject::Dictionary(d)) => Some(d),
                _ => None,
            },
            _ => None,
        };
        DocumentInfo { dict }
    }

    /// The `/Info` dictionary, for writing: the one the trailer refers to
    /// (made an empty dictionary when it is not one), or a new stored object
    /// (holding the trailer's direct `/Info` dictionary, or empty) that the
    /// trailer then refers to.
    pub fn document_info_mut(&mut self) -> (r: PdfResult<DocumentInfoMut<'_>>)
        ensures
            r is Ok,
            match r {
                Ok(info) => {
                    let id = info.info_id;
                    &&& dict_lookup((*info.doc).xref.trailer@, lit("Info")) == Some(CosValue::Ref(id.object_number, id.generation))
                    &&& store_find((*info.doc).objects@, id) == Some(CosValue::Dict(info_base(&*old(self))))
                    &&& forall|q: ObjectId| q != id ==> #[trigger] store_find((*info.doc).objects@, q) == store_find(old(self).objects@, q)
                },
                Err(_) => true,
            },
    {
        let info_id = self.info_target();
        Ok(DocumentInfoMut { doc: self, info_id })
    }

    /// The id of the `/Info` dictionary to write (see `document_info_mut`).
    fn info_target(&mut self) -> (id: ObjectId)
        ensures
            dict_lookup(final(self).xref.trailer@, lit("Info")) == Some(CosValue::Ref(id.object_number, id.generation)),
            store_find(final(self).objects@, id) == Some(CosValue::Dict(info_base(&*old(self)))),
            forall|q: ObjectId| q != id ==> #[trigger] store_find(final(self).objects@, q) == store_find(old(self).objects@, q),
    {
        let current = match self.xref.trailer.get(&CosName::named("Info")) {
            Some(o) => Some(o.deep_clone()),
            None => None,
        };
        let info_id = match current {
            Some(CosObject::Reference(id)) => {
                let is_dict = match self.objects.get(&id) {
                    Some(CosObject::Dictionary(_)) => true,
                    _ => false,
                };
                if !is_dict {
                    let empty = CosDictionary::new();
                    proof { assert(empty@ =~= Seq::<(Seq<u8>, CosValue)>::empty()); }
                    self.insert_object(id, CosObject::Dictionary(empty));
                }
                id
            }
            Some(CosObject::Dictionary(dict)) => {
                let id = self.allocate_object_id();
                self.insert_object(id, CosObject::Dictionary(dict));
                let ghost objs = self.objects@;
                self.xref.trailer.insert(CosName::named("Info"), CosObject::Reference(id));
                proof { crate::cos::lemma_lookup_insert(old(self).xref.trailer@, lit("Info"), CosValue::Ref(id.object_number, id.generation), lit("Info")); }
                id
            }
            _ => {
                let id = self.allocate_object_id();
                let empty = CosDictionary::new();
                proof { assert(empty@ =~= Seq::<(Seq<u8>, CosValue)>::empty()); }
                self.insert_object(id, CosObject::Dictionary(empty));
                self.xref.trailer.insert(CosName::named("Info"), CosObject::Reference(id));
                proof { crate::cos::lemma_lookup_insert(old(self).xref.trailer@, lit("Info"), CosValue::Ref(id.object_number, id.generation), lit("Info")); }
                id
            }
        };
        info_id
    }

    /// The XMP packet of the catalog's `/Metadata` stream, decoded through its
    /// filters; `None` when there is none, decoding fails, or the bytes are
    /// not UTF-8.
    pub fn xmp_metadata(&self) -> (r: Option<XmpMetadata>)
        ensures
            match metadata_stream(self) {
                None => r is None,
                Some((d, data)) => match decode_spec(data, dict_lookup(d, lit("Filter"))) {
                    Decoded::Out(b) => match utf8_text(b) {
                        Some(t) => r is Some && r->Some_0.raw_xml@ == t && r->Some_0.read_from_text(),
                        None => r is None,
                    },
                    _ => r is None,
                },
            },
            match xmp_text_of(self) {
                Some(t) => r is Some && r->Some_0.raw_xml@ == t && r->Some_0.read_from_text(),
                None => r is None,
            },
    {
        let catalog = match self.catalog() {
            Some(c) => c,
            None => return None,
        };
        let stream = match catalog.get(&CosName::named("Metadata")) {
            Some(CosObject::Reference(id)) => match self.objects.get(id) {
                Some(CosObject::Stream(s)) => s,
                _ => return None,
            },
            Some(CosObject::Stream(s)) => s,
            _ => return None,
        };
        let filter = stream.dictionary.get(&CosName::filter());
        match decode_stream(stream.data.as_slice(), filter) {
            Ok(decoded) => XmpMetadata::from_bytes(decoded.as_slice()),
            Err(_) => None,
        }
    }

    /// Stores `xml` as the XMP packet: a `/Metadata` stream the catalog refers
    /// to (reusing the id it referred to before). A `Parse` error when the
    /// trailer names no catalog.
    pub fn set_xmp_metadata_raw(&mut self, xml: &str) -> (r: PdfResult<()>)
        ensures
            r is Ok <==> old(self).catalog_id_spec() is Some,
            r is Err ==> (r matches Err(PdfError::Parse { offset: None, context: c })
                && c@ == "cannot resolve catalog object id"@ && final(self).objects@ == old(self).objects@),
            r is Ok ==> exists|mid: ObjectId| xmp_stored(&*old(self), &*final(self), old(self).catalog_id_spec()->Some_0, mid, xml.spec_bytes()),
    {
        let catalog_id = match self.catalog_id() {
            Some(id) => id,
            None => return Err(PdfError::parse("cannot resolve catalog object id", None)),
        };
        let existing = match self.objects.get(&catalog_id) {
            Some(CosObject::Dictionary(d)) => match d.get(&CosName::named("Metadata")) {
                Some(CosObject::Reference(id)) => Some(*id),
                _ => None,
            },
            _ => None,
        };
        let metadata_id = match existing {
            Some(id) => id,
            None => self.allocate_object_id(),
        };
        let bytes = clone_bytes(xml.as_bytes());
        let mut dict = CosDictionary::new();
        proof { assert(dict@ =~= Seq::<(Seq<u8>, CosValue)>::empty()); }
        dict.insert(CosName::type_key(), CosObject::Name(CosName::named("Metadata")));
        dict.insert(CosName::subtype(), CosObject::Name(CosName::named("XML")));
        dict.insert(CosName::length(), CosObject::Integer(bytes.len() as i64));
        proof { assert(dict@ == metadata_dict(xml.spec_bytes())); }
        self.insert_object(metadata_id, CosObject::Stream(CosStream::new(dict, bytes)));
        match self.take_object(catalog_id) {
            Some(CosObject::Dictionary(mut cat)) => {
                cat.insert(CosName::named("Metadata"), CosObject::Reference(metadata_id));
                self.insert_object(catalog_id, CosObject::Dictionary(cat));
            }
            Some(other) => {
                self.insert_object(catalog_id, other);
            }
            None => {}
        }
        proof {
            let b = &*old(self);
            let a = &*self;
            let mx = xml.spec_bytes();
            assert(metadata_id != catalog_id ==> store_find(a.objects@, metadata_id) == Some(CosValue::Stream(metadata_dict(mx), mx)));
            assert(metadata_id != catalog_id ==> store_find(a.objects@, catalog_id) == match store_find(b.objects@, catalog_id) {
                Some(CosValue::Dict(c)) => Some(CosValue::Dict(dict_insert(c, lit("Metadata"), CosValue::Ref(metadata_id.object_number, metadata_id.generation)))),
                other => other,
            });
            assert(forall|q: ObjectId| q != metadata_id && q != catalog_id ==> #[trigger] store_find(a.objects@, q) == store_find(b.objects@, q));
            assert(a.xref.trailer@ == b.xref.trailer@);
            assert(xmp_stored(b, a, catalog_id, metadata_id, mx));
        }
        Ok(())
    }

    /// `sync_docinfo_to_xmp_with` with the default policy.
    pub fn sync_docinfo_to_xmp(&mut self) -> (r: PdfResult<()>)
        ensures
            r is Ok <==> old(self).catalog_id_spec() is Some,
            r is Err ==> final(self).objects@ == old(self).objects@,
            r is Ok ==> exists|mid: ObjectId| #[trigger] xmp_stored(&*old(self), &*final(self), old(self).catalog_id_spec()->Some_0, mid,
                vstd::utf8::encode_utf8(packet_of(docinfo_texts(info_dict(&*old(self)), default_policy())))),
    {
        self.sync_docinfo_to_xmp_with(SyncPolicy::default())
    }

    /// Writes an XMP packet built from the `/Info` entries the policy selects.
    pub fn sync_docinfo_to_xmp_with(&mut self, policy: SyncPolicy) -> (r: PdfResult<()>)
        ensures
            r is Ok <==> old(self).catalog_id_spec() is Some,
            r is Err ==> final(self).objects@ == old(self).objects@,
            r is Ok ==> exists|mid: ObjectId| #[trigger] xmp_stored(&*old(self), &*final(self), old(self).catalog_id_spec()->Some_0, mid,
                vstd::utf8::encode_utf8(packet_of(docinfo_texts(info_dict(&*old(self)), policy)))),
    {
        sync_docinfo_to_xmp(self, policy)
    }

    /// `sync_xmp_to_docinfo_with` with the default policy.
    pub fn sync_xmp_to_docinfo(&mut self) -> (r: PdfResult<()>)
        ensures
            r is Ok,
            match xmp_text_of(&*old(self)) {
                None => *final(self) == *old(self),
                Some(x) => dict_lookup(final(self).xref.trailer@, lit("Info")) matches Some(CosValue::Ref(n, g)) && {
                    let id = ObjectId { object_number: n, generation: g };
                    &&& store_find(final(self).objects@, id) == Some(CosValue::Dict(synced_info(info_base(&*old(self)), xmp_props(x), default_policy())))
                    &&& forall|q: ObjectId| q != id ==> #[trigger] store_find(final(self).objects@, q) == store_find(old(self).objects@, q)
                },
            },
    {
        self.sync_xmp_to_docinfo_with(SyncPolicy::default())
    }

    /// Copies the XMP properties the policy selects into `/Info`.
    pub fn sync_xmp_to_docinfo_with(&mut self, policy: SyncPolicy) -> (r: PdfResult<()>)
        ensures
            r is Ok,
            match xmp_text_of(&*old(self)) {
                None => *final(self) == *old(self),
                Some(x) => dict_lookup(final(self).xref.trailer@, lit("Info")) matches Some(CosValue::Ref(n, g)) && {
                    let id = ObjectId { object_number: n, generation: g };
                    &&& store_find(final(self).objects@, id) == Some(CosValue::Dict(synced_info(info_base(&*old(self)), xmp_props(x), policy)))
                    &&& forall|q: ObjectId| q != id ==> #[trigger] store_find(final(self).objects@, q) == store_find(old(self).objects@, q)
                },
            },
    {
        sync_xmp_to_docinfo(self, policy)
    }
}

// ---------------------------------------------------------------------------
// Syncing
// ---------------------------------------------------------------------------

fn picked(on: bool, v: Option<String>) -> (r: Option<String>)
    ensures r == (if on { v } else { None }),
{
    if on { v } else { None }
}

/// The XMP date for the text `v` when `on`: what `pdf_date_to_xmp_checked`
/// gives for its bytes.
pub open spec fn picked_date_text(on: bool, v: Option<Seq<char>>) -> Option<Seq<char>> {
    if on {
        match v {
            Some(t) => {
                let b = vstd::utf8::encode_utf8(t);
                if date_cuts_ok(b) { xmp_date(b) } else { None }
            },
            None => None,
        }
    } else {
        None
    }
}

fn picked_date(on: bool, v: Option<String>) -> (r: Option<String>)
    ensures
        match picked_date_text(on, match v { Some(s) => Some(s@), None => None }) {
            Some(d) => r is Some && r->Some_0@ == d,
            None => r is None,
        },
{
    if on {
        match v {
            Some(s) => pdf_date_to_xmp_checked(s.as_str()),
            None => None,
        }
    } else {
        None
    }
}

fn as_str_opt(o: &Option<String>) -> (r: Option<&str>)
    ensures
        match o {
            Some(s) => r is Some && r->Some_0@ == s@,
            None => r is None,
        },
{
    match o {
        Some(s) => Some(s.as_str()),
        None => None,
    }
}

/// `v` when `on`.
pub open spec fn opt_on(on: bool, v: Option<Seq<char>>) -> Option<Seq<char>> {
    if on { v } else { None }
}

/// The packet texts taken from the `/Info` dictionary `info` under policy
/// `p`, in the order of `field_texts`: title, author, subject, keywords,
/// creator, producer, and the two dates in XMP form.
pub open spec fn docinfo_texts(info: Option<Seq<(Seq<u8>, CosValue)>>, p: SyncPolicy) -> Seq<Option<Seq<char>>> {
    seq![
        opt_on(p.title, info_text(info, lit("Title"))),
        opt_on(p.author, info_text(info, lit("Author"))),
        opt_on(p.subject, info_text(info, lit("Subject"))),
        opt_on(p.keywords, info_text(info, lit("Keywords"))),
        opt_on(p.creator, info_text(info, lit("Creator"))),
        opt_on(p.producer, info_text(info, lit("Producer"))),
        picked_date_text(p.creation_date, info_text(info, lit("CreationDate"))),
        picked_date_text(p.mod_date, info_text(info, lit("ModDate"))),
    ]
}

/// Writes an XMP packet built from the `/Info` entries the policy selects:
/// title, author (as `dc:creator`), subject, keywords, creator (as
/// `xmp:CreatorTool`), producer, and the two dates in XMP form. The packet
/// is stored as `set_xmp_metadata_raw` stores one.
pub fn sync_docinfo_to_xmp(doc: &mut Document, policy: SyncPolicy) -> (r: PdfResult<()>)
    ensures
        r is Ok <==> old(doc).catalog_id_spec() is Some,
        r is Err ==> final(doc).objects@ == old(doc).objects@,
        r is Ok ==> exists|mid: ObjectId| #[trigger] xmp_stored(&*old(doc), &*final(doc), old(doc).catalog_id_spec()->Some_0, mid,
            vstd::utf8::encode_utf8(packet_of(docinfo_texts(info_dict(&*old(doc)), policy)))),
{
    let info = doc.document_info();
    let title = picked(policy.title, info.title());
    let author = picked(policy.author, info.author());
    let subject = picked(policy.subject, info.subject());
    let keywords = picked(policy.keywords, info.keywords());
    let creator = picked(policy.creator, info.creator());
    let producer = picked(policy.producer, info.producer());
    let creation_date = picked_date(policy.creation_date, info.creation_date());
    let mod_date = picked_date(policy.mod_date, info.mod_date());
    let fields = XmpFields {
        title: as_str_opt(&title),
        creator: as_str_opt(&author),
        subject: as_str_opt(&subject),
        keywords: as_str_opt(&keywords),
        creator_tool: as_str_opt(&creator),
        producer: as_str_opt(&producer),
        create_date: as_str_opt(&creation_date),
        modify_date: as_str_opt(&mod_date),
    };
    let xml = build_basic_xmp(fields);
    proof { assert(field_texts(fields) =~= docinfo_texts(info_dict(&*doc), policy)); }
    doc.set_xmp_metadata_raw(xml.as_str())
}

/// The text of the document's XMP packet: the catalog's `/Metadata`
/// stream decoded through its filters, read as UTF-8.
pub open spec fn xmp_text_of(d: &Document) -> Option<Seq<char>> {
    match metadata_stream(d) {
        Some((dd, data)) => match decode_spec(data, dict_lookup(dd, lit("Filter"))) {
            Decoded::Out(b) => utf8_text(b),
            _ => None,
        },
        None => None,
    }
}

/// The eight properties read from packet text `x`, in the order of
/// `field_texts`.
pub open spec fn xmp_props(x: Seq<char>) -> Seq<Option<Seq<char>>> {
    seq![
        list_property(x, "dc:title"@), list_property(x, "dc:creator"@), list_property(x, "dc:subject"@),
        simple_property(x, "pdf:Keywords"@), simple_property(x, "xmp:CreatorTool"@), simple_property(x, "pdf:Producer"@),
        simple_property(x, "xmp:CreateDate"@), simple_property(x, "xmp:ModifyDate"@),
    ]
}

/// `d` with `key` set to the text `v` when `on` and `v` is present.
pub open spec fn apply_opt(d: Seq<(Seq<u8>, CosValue)>, on: bool, key: Seq<u8>, v: Option<Seq<char>>) -> Seq<(Seq<u8>, CosValue)> {
    if on && v is Some { dict_insert(d, key, CosValue::Str(vstd::utf8::encode_utf8(v->Some_0))) } else { d }
}

/// The `/Info` entries after copying the properties `v` the policy `p`
/// selects into `d`: title, author, subject, keywords, creator, producer,
/// creation and modification date, in that order.
pub open spec fn synced_info(d: Seq<(Seq<u8>, CosValue)>, v: Seq<Option<Seq<char>>>, p: SyncPolicy) -> Seq<(Seq<u8>, CosValue)> {
    apply_opt(apply_opt(apply_opt(apply_opt(apply_opt(apply_opt(apply_opt(apply_opt(d,
        p.title, lit("Title"), v[0]), p.author, lit("Author"), v[1]), p.subject, lit("Subject"), v[2]),
        p.keywords, lit("Keywords"), v[3]), p.creator, lit("Creator"), v[4]), p.producer, lit("Producer"), v[5]),
        p.creation_date, lit("CreationDate"), v[6]), p.mod_date, lit("ModDate"), v[7])
}

/// Copies one property into the dictionary `id` when `on` and present.
fn sync_one(doc: &mut Document, id: ObjectId, on: bool, v: Option<&str>, key: &str) -> (r: PdfResult<()>)
    requires store_find(old(doc).objects@, id) matches Some(CosValue::Dict(_)),
    ensures
        r is Ok,
        store_find(final(doc).objects@, id) == Some(CosValue::Dict(apply_opt(
            store_find(old(doc).objects@, id)->Some_0->Dict_0, on, lit(key), crate::metadata::xmp::opt_str(v)))),
        forall|q: ObjectId| q != id ==> #[trigger] store_find(final(doc).objects@, q) == store_find(old(doc).objects@, q),
        final(doc).xref.trailer@ == old(doc).xref.trailer@,
{
    if on {
        if let Some(t) = v {
            return set_info_entry(doc, id, key, t);
        }
    }
    Ok(())
}

/// Copies the XMP properties the policy selects into `/Info` (see
/// `synced_info`): the dictionary `document_info_mut` gives gets each
/// selected property the packet holds. Nothing changes when the document
/// has no readable XMP packet.
pub fn sync_xmp_to_docinfo(doc: &mut Document, policy: SyncPolicy) -> (r: PdfResult<()>)
    ensures
        r is Ok,
        metadata_stream(old(doc)) is None ==> *final(doc) == *old(doc),
        match xmp_text_of(&*old(doc)) {
            None => *final(doc) == *old(doc),
            Some(x) => dict_lookup(final(doc).xref.trailer@, lit("Info")) matches Some(CosValue::Ref(n, g)) && {
                let id = ObjectId { object_number: n, generation: g };
                &&& store_find(final(doc).objects@, id) == Some(CosValue::Dict(synced_info(info_base(&*old(doc)), xmp_props(x), policy)))
                &&& forall|q: ObjectId| q != id ==> #[trigger] store_find(final(doc).objects@, q) == store_find(old(doc).objects@, q)
            },
        },
{
    let xmp = match doc.xmp_metadata() {
        Some(x) => x,
        None => return Ok(()),
    };
    let ghost x = xmp.raw_xml@;
    let ghost d0 = info_base(&*doc);
    let id = doc.info_target();
    let ghost mid = doc.objects@;
    let ghost v = xmp_props(x);
    let a = sync_one(doc, id, policy.title, xmp.dc_title(), "Title");
    let b = sync_one(doc, id, policy.author, xmp.dc_creator(), "Author");
    let c = sync_one(doc, id, policy.subject, xmp.dc_subject(), "Subject");
    let e = sync_one(doc, id, policy.keywords, xmp.pdf_keywords(), "Keywords");
    let f = sync_one(doc, id, policy.creator, xmp.xmp_creator_tool(), "Creator");
    let g = sync_one(doc, id, policy.producer, xmp.pdf_producer(), "Producer");
    let h = sync_one(doc, id, policy.creation_date, xmp.xmp_create_date(), "CreationDate");
    let k = sync_one(doc, id, policy.mod_date, xmp.xmp_modify_date(), "ModDate");
    proof {
        assert(store_find(doc.objects@, id) == Some(CosValue::Dict(synced_info(d0, v, policy))));
        assert forall|q: ObjectId| q != id implies #[trigger] store_find(doc.objects@, q) == store_find(old(doc).objects@, q) by {
            assert(store_find(mid, q) == store_find(old(doc).objects@, q));
        }
    }
    Ok(())
}
} // verus!

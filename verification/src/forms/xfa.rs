//! The XFA packets of a form (`/AcroForm /XFA`), read as they are stored.

use vstd::prelude::*;
use crate::bytes::{clone_bytes, lit};
use crate::cos::{CosDictionary, CosName, CosObject, CosValue, ObjectId, dict_lookup, view_obj, view_objs};
use crate::document::{ObjectStore, store_find};
use crate::io::{Decoded, decode_spec};
use crate::text::{from_utf8_lossy, str_chars, utf8_lossy};

verus! {

/// One XFA packet: its name, when it has one, and its XML bytes.
#[derive(Debug, Clone, PartialEq, Eq)]
pub struct XfaPacket {
    pub name: Option<String>,
    pub xml: Vec<u8>,
}

/// The XFA packets of a form, in document order.
#[derive(Debug, Clone, PartialEq, Eq)]
pub struct XfaForm {
    pub packets: Vec<XfaPacket>,
}

pub open spec fn name_text(n: Option<String>) -> Option<Seq<char>> {
    match n {
        Some(s) => Some(s@),
        None => None,
    }
}

/// A packet as a name and bytes.
pub open spec fn packet_view(p: XfaPacket) -> (Option<Seq<char>>, Seq<u8>) {
    (name_text(p.name), p.xml@)
}

pub open spec fn packets_view(ps: Seq<XfaPacket>) -> Seq<(Option<Seq<char>>, Seq<u8>)> {
    Seq::new(ps.len(), |i: int| packet_view(ps[i]))
}

/// The names of the named packets, in order.
pub open spec fn packet_name_list(ps: Seq<XfaPacket>) -> Seq<Seq<char>>
    decreases ps.len(),
{
    if ps.len() == 0 {
        Seq::empty()
    } else {
        packet_name_list(ps.drop_last()) + match ps.last().name {
            Some(n) => seq![n@],
            None => Seq::empty(),
        }
    }
}

/// A character with ASCII upper case letters made lower case.
pub open spec fn ascii_lower(c: char) -> char {
    if 'A' <= c && c <= 'Z' { ((c as u32) + 32) as char } else { c }
}

/// `a` and `b` are equal when ASCII letters are compared without case.
pub open spec fn eq_ascii_ci(a: Seq<char>, b: Seq<char>) -> bool {
    a.len() == b.len() && forall|i: int| 0 <= i < a.len() ==> ascii_lower(#[trigger] a[i]) == ascii_lower(b[i])
}

/// `p` is named `name`, ASCII case ignored.
pub open spec fn named_ci(p: XfaPacket, name: Seq<char>) -> bool {
    p.name matches Some(n) && eq_ascii_ci(n@, name)
}

/// The packet named `name` (ASCII case ignored) is at `k`, and none before.
pub open spec fn first_named(ps: Seq<XfaPacket>, name: Seq<char>, k: int) -> bool {
    &&& 0 <= k < ps.len()
    &&& named_ci(ps[k], name)
    &&& forall|j: int| 0 <= j < k ==> !named_ci(#[trigger] ps[j], name)
}

/// The bytes of all packets, in order.
pub open spec fn concat_xml(ps: Seq<XfaPacket>) -> Seq<u8>
    decreases ps.len(),
{
    if ps.len() == 0 {
        Seq::empty()
    } else {
        concat_xml(ps.drop_last()) + ps.last().xml@
    }
}

fn lower(c: char) -> (r: char)
    ensures r == ascii_lower(c),
{
    if 'A' <= c && c <= 'Z' {
        let v = (c as u32) + 32;
        proof { assert(v <= 0x7a); }
        let b = v as u8;
        b as char
    } else {
        c
    }
}

fn eq_ignore_ascii_case(a: &str, b: &str) -> (r: bool)
    ensures r == eq_ascii_ci(a@, b@),
{
    let x = str_chars(a);
    let y = str_chars(b);
    if x.len() != y.len() {
        return false;
    }
    let mut i: usize = 0;
    while i < x.len()
        invariant
            i <= x@.len(), x@.len() == y@.len(), x@ == a@, y@ == b@,
            forall|k: int| 0 <= k < i ==> ascii_lower(#[trigger] a@[k]) == ascii_lower(b@[k]),
        decreases x.len() - i,
    {
        if lower(x[i]) != lower(y[i]) {
            return false;
        }
        i += 1;
    }
    true
}

impl XfaPacket {
    pub fn name(&self) -> (r: Option<&str>)
        ensures
            match self.name {
                Some(n) => r is Some && r->Some_0@ == n@,
                None => r is None,
            },
    {
        match &self.name {
            Some(n) => Some(n.as_str()),
            None => None,
        }
    }

    pub fn xml(&self) -> (r: &[u8])
        ensures r@ == self.xml@,
    {
        self.xml.as_slice()
    }
}

impl XfaForm {
    pub fn packets(&self) -> (r: &[XfaPacket])
        ensures r@ == self.packets@,
    {
        self.packets.as_slice()
    }

    /// The names of the named packets, in document order.
    pub fn packet_names(&self) -> (r: Vec<&str>)
        ensures r@.len() == packet_name_list(self.packets@).len(),
            forall|k: int| 0 <= k < r@.len() ==> (#[trigger] r@[k])@ == packet_name_list(self.packets@)[k],
    {
        let mut out: Vec<&str> = Vec::new();
        let mut i: usize = 0;
        while i < self.packets.len()
            invariant
                i <= self.packets@.len(),
                out@.len() == packet_name_list(self.packets@.take(i as int)).len(),
                forall|k: int| 0 <= k < out@.len() ==> (#[trigger] out@[k])@ == packet_name_list(self.packets@.take(i as int))[k],
            decreases self.packets.len() - i,
        {
            proof { assert(self.packets@.take(i + 1).drop_last() =~= self.packets@.take(i as int)); }
            match &self.packets[i].name {
                Some(n) => {
                    out.push(n.as_str());
                }
                None => {}
            }
            i += 1;
        }
        proof { assert(self.packets@.take(self.packets@.len() as int) =~= self.packets@); }
        out
    }

    /// The first packet whose name is `name`, ASCII case ignored.
    pub fn packet(&self, name: &str) -> (r: Option<&XfaPacket>)
        ensures
            match r {
                Some(p) => exists|k: int| first_named(self.packets@, name@, k) && *p == self.packets@[k],
                None => forall|k: int| 0 <= k < self.packets@.len()
                    ==> !named_ci(#[trigger] self.packets@[k], name@),
            },
    {
        let mut i: usize = 0;
        while i < self.packets.len()
            invariant
                i <= self.packets@.len(),
                forall|j: int| 0 <= j < i ==> !named_ci(#[trigger] self.packets@[j], name@),
            decreases self.packets.len() - i,
        {
            let hit = match &self.packets[i].name {
                Some(n) => eq_ignore_ascii_case(n.as_str(), name),
                None => false,
            };
            if hit {
                proof { assert(first_named(self.packets@, name@, i as int)); }
                return Some(&self.packets[i]);
            }
            i += 1;
        }
        None
    }

    /// The XML of the `datasets` packet.
    pub fn datasets_xml(&self) -> (r: Option<&[u8]>)
        ensures
            match r {
                Some(x) => exists|k: int| first_named(self.packets@, "datasets"@, k) && x@ == self.packets@[k].xml@,
                None => forall|k: int| 0 <= k < self.packets@.len()
                    ==> !named_ci(#[trigger] self.packets@[k], "datasets"@),
            },
    {
        match self.packet("datasets") {
            Some(p) => Some(p.xml()),
            None => None,
        }
    }

    pub fn is_empty(&self) -> (r: bool)
        ensures r == (self.packets@.len() == 0),
    {
        self.packets.len() == 0
    }

    /// The bytes of all packets, in order.
    pub fn raw_xml(&self) -> (r: Vec<u8>)
        ensures r@ == concat_xml(self.packets@),
    {
        let mut out: Vec<u8> = Vec::new();
        let mut i: usize = 0;
        while i < self.packets.len()
            invariant
                i <= self.packets@.len(),
                out@ == concat_xml(self.packets@.take(i as int)),
            decreases self.packets.len() - i,
        {
            proof { assert(self.packets@.take(i + 1).drop_last() =~= self.packets@.take(i as int)); }
            let x = &self.packets[i].xml;
            let mut j: usize = 0;
            let ghost base = out@;
            while j < x.len()
                invariant j <= x@.len(), out@ == base + x@.take(j as int),
                decreases x.len() - j,
            {
                out.push(x[j]);
                proof { assert(out@ =~= base + x@.take(j + 1)); }
                j += 1;
            }
            proof { assert(x@.take(x@.len() as int) =~= x@); }
            i += 1;
        }
        proof { assert(self.packets@.take(self.packets@.len() as int) =~= self.packets@); }
        out
    }

    /// The packets of a form dictionary's `/XFA` entry; `None` without one
    /// (see `xfa_packets`).
    pub fn from_acro_form_dict(dict: &CosDictionary, store: &ObjectStore) -> (r: Option<Self>)
        ensures
            match dict_lookup(dict@, lit("XFA")) {
                None => r is None,
                Some(x) => r is Some && (xfa_packets(x, store@) matches Some(ps) ==> packets_view(r->Some_0.packets@) == ps),
            },
    {
        let xfa = match dict.get(&CosName::named("XFA")) {
            Some(x) => x,
            None => return None,
        };
        Some(XfaForm { packets: parse_xfa_packets(xfa, store) })
    }
}

/// One level of reference: a reference's stored object, anything else as
/// it is.
pub open spec fn resolve1(v: CosValue, s: Seq<(ObjectId, CosValue)>) -> Option<CosValue> {
    match v {
        CosValue::Ref(n, g) => store_find(s, ObjectId { object_number: n, generation: g }),
        _ => Some(v),
    }
}

/// What an XFA payload holds.
pub enum Payload {
    /// The payload's bytes.
    Bytes(Seq<u8>),
    /// Not a payload: not a stream or string, or data its filters reject.
    NoPayload,
}

/// The payload of `v`: a string's bytes, or a stream's decoded data.
pub open spec fn payload(v: CosValue, s: Seq<(ObjectId, CosValue)>) -> Payload {
    match resolve1(v, s) {
        Some(CosValue::Stream(d, data)) => match decode_spec(data, dict_lookup(d, lit("Filter"))) {
            Decoded::Out(o) => Payload::Bytes(o),
            _ => Payload::NoPayload,
        },
        Some(CosValue::Str(b)) => Payload::Bytes(b),
        _ => Payload::NoPayload,
    }
}

pub open spec fn prepend(x: (Option<Seq<char>>, Seq<u8>), rest: Option<Seq<(Option<Seq<char>>, Seq<u8>)>>)
    -> Option<Seq<(Option<Seq<char>>, Seq<u8>)>>
{
    match rest {
        Some(r) => Some(seq![x] + r),
        None => None,
    }
}

/// The packets of an `/XFA` array from `i`: a string names the payload after
/// it; a payload on its own is an unnamed packet; anything else is skipped.
pub open spec fn packets_from(items: Seq<CosValue>, i: int, s: Seq<(ObjectId, CosValue)>) -> Option<Seq<(Option<Seq<char>>, Seq<u8>)>>
    decreases items.len() - i,
{
    if i < 0 || i >= items.len() {
        Some(Seq::empty())
    } else {
        let cur = match resolve1(items[i], s) {
            Some(c) => c,
            None => items[i],
        };
        match cur {
            CosValue::Str(nb) => if i + 1 < items.len() {
                match payload(items[i + 1], s) {
                    Payload::Bytes(x) => prepend((Some(utf8_lossy(nb)), x), packets_from(items, i + 2, s)),
                    Payload::NoPayload => packets_from(items, i + 1, s),
                }
            } else {
                packets_from(items, i + 1, s)
            },
            _ => match payload(items[i], s) {
                Payload::Bytes(x) => prepend((None, x), packets_from(items, i + 1, s)),
                Payload::NoPayload => packets_from(items, i + 1, s),
            },
        }
    }
}

/// The packets of an `/XFA` value: those of an array, or the one unnamed
/// packet of a single payload.
pub open spec fn xfa_packets(x: CosValue, s: Seq<(ObjectId, CosValue)>) -> Option<Seq<(Option<Seq<char>>, Seq<u8>)>> {
    match resolve1(x, s) {
        Some(CosValue::Array(items)) => packets_from(items, 0, s),
        Some(obj) => match payload(obj, s) {
            Payload::Bytes(b) => Some(seq![(None, b)]),
            Payload::NoPayload => Some(Seq::empty()),
        },
        None => Some(Seq::empty()),
    }
}

fn resolve_object<'a>(obj: &'a CosObject, store: &'a ObjectStore) -> (r: Option<&'a CosObject>)
    ensures
        match resolve1(obj@, store@) {
            Some(v) => r is Some && r->Some_0@ == v,
            None => r is None,
        },
{
    match obj {
        CosObject::Reference(id) => store.get(id),
        _ => Some(obj),
    }
}

fn decode_xfa_payload(obj: &CosObject, store: &ObjectStore) -> (r: Option<Vec<u8>>)
    ensures
        match payload(obj@, store@) {
            Payload::Bytes(b) => r is Some && r->Some_0@ == b,
            Payload::NoPayload => r is None,
        },
{
    match resolve_object(obj, store) {
        Some(CosObject::Stream(stream)) => {
            let filter = stream.dictionary.get(&CosName::filter());
            match crate::io::decode_stream(stream.data.as_slice(), filter) {
                Ok(v) => Some(v),
                Err(_) => None,
            }
        }
        Some(CosObject::String(s)) => Some(clone_bytes(s.as_slice())),
        _ => None,
    }
}

fn parse_xfa_packet_array(items: &Vec<CosObject>, store: &ObjectStore) -> (r: Vec<XfaPacket>)
    ensures
        packets_from(view_objs(items@), 0, store@) matches Some(ps) ==> packets_view(r@) == ps,
{
    let ghost a = view_objs(items@);
    let ghost s = store@;
    proof { crate::cos::lemma_view_objs(items@); }
    let mut packets: Vec<XfaPacket> = Vec::new();
    let mut i: usize = 0;
    while i < items.len()
        invariant
            i <= items@.len(),
            a == view_objs(items@),
            a.len() == items@.len(),
            s == store@,
            forall|q: int| 0 <= q < items@.len() ==> a[q] == view_obj(#[trigger] items@[q]),
            packets_from(a, 0, s) is Some ==> packets_from(a, i as int, s) is Some
                && packets_from(a, 0, s)->Some_0 == packets_view(packets@) + packets_from(a, i as int, s)->Some_0,
        decreases items.len() - i,
    {
        let ghost before = packets@;
        let current = match resolve_object(&items[i], store) {
            Some(c) => c,
            None => &items[i],
        };
        match current {
            CosObject::String(name_bytes) => {
                if i + 1 < items.len() {
                    match decode_xfa_payload(&items[i + 1], store) {
                        Some(xml) => {
                            let name = from_utf8_lossy(name_bytes.as_slice());
                            packets.push(XfaPacket { name: Some(name), xml });
                            proof {
                                if packets_from(a, 0, s) is Some {
                                    let rest = packets_from(a, i + 2, s)->Some_0;
                                    assert(packets_view(packets@) =~= packets_view(before).push(packet_view(packets@.last())));
                                    assert(packets_from(a, 0, s)->Some_0 =~= packets_view(packets@) + rest);
                                }
                            }
                            i += 2;
                        }
                        None => {
                            i += 1;
                        }
                    }
                } else {
                    i += 1;
                }
            }
            _ => {
                match decode_xfa_payload(&items[i], store) {
                    Some(xml) => {
                        packets.push(XfaPacket { name: None, xml });
                        proof {
                            if packets_from(a, 0, s) is Some {
                                let rest = packets_from(a, i + 1, s)->Some_0;
                                assert(packets_view(packets@) =~= packets_view(before).push(packet_view(packets@.last())));
                                assert(packets_from(a, 0, s)->Some_0 =~= packets_view(packets@) + rest);
                            }
                        }
                    }
                    None => {}
                }
                i += 1;
            }
        }
    }
    proof {
        if packets_from(a, 0, s) is Some {
            assert(packets_from(a, 0, s)->Some_0 =~= packets_view(packets@));
        }
    }
    packets
}

fn parse_xfa_packets(xfa_obj: &CosObject, store: &ObjectStore) -> (r: Vec<XfaPacket>)
    ensures xfa_packets(xfa_obj@, store@) matches Some(ps) ==> packets_view(r@) == ps,
{
    match resolve_object(xfa_obj, store) {
        Some(CosObject::Array(items)) => parse_xfa_packet_array(items, store),
        Some(obj) => {
            let mut v: Vec<XfaPacket> = Vec::new();
            match decode_xfa_payload(obj, store) {
                Some(xml) => {
                    v.push(XfaPacket { name: None, xml });
                    proof { assert(packets_view(v@) =~= seq![packet_view(v@[0])]); }
                }
                None => {
                    proof { assert(packets_view(v@) =~= Seq::<(Option<Seq<char>>, Seq<u8>)>::empty()); }
                }
            }
            v
        }
        None => {
            let v: Vec<XfaPacket> = Vec::new();
            proof { assert(packets_view(v@) =~= Seq::<(Option<Seq<char>>, Seq<u8>)>::empty()); }
            v
        }
    }
}

impl<'a> crate::forms::PdAcroForm<'a> {
    /// The form's XFA packets, when it has an `/XFA` entry.
    pub fn xfa(&self) -> (r: Option<XfaForm>)
        ensures
            match dict_lookup(self.dict@, lit("XFA")) {
                None => r is None,
                Some(x) => r is Some && (xfa_packets(x, self.store@) matches Some(ps) ==> packets_view(r->Some_0.packets@) == ps),
            },
    {
        XfaForm::from_acro_form_dict(self.dict, self.store)
    }
}

} // verus!

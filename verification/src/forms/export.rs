//! Writing form data: the named fields' values as FDF (a PDF-like file) or
//! XFDF (XML).

use vstd::prelude::*;
use vstd::utf8::encode_utf8;
use crate::bytes::lit;
use crate::cos::{CosDictionary, CosName, CosObject, CosValue, ObjectId, dict_insert, view_obj, view_objs, view_entries};
use crate::document::{Document, PdfResult};
use crate::forms::{acro_form_dict, form_fields, field_is};
use crate::forms::field::{PdField, export_value, field_dict_of, field_name, get_field_value_for_export};
use crate::text::{decimal_text, push_char, push_decimal, push_digits, push_str, str_chars, utf8_lossy};

verus! {

/// The named fields of a form, in order, with their exported values.
pub open spec fn collected_from(ff: Seq<(ObjectId, Seq<(Seq<u8>, CosValue)>)>) -> Seq<(Seq<char>, Option<Seq<char>>)>
    decreases ff.len(),
{
    if ff.len() == 0 {
        Seq::empty()
    } else {
        collected_from(ff.drop_last()) + if field_name(ff.last().1).len() == 0 {
            Seq::empty()
        } else {
            seq![(field_name(ff.last().1), export_value(ff.last().1))]
        }
    }
}

/// The named fields of a document's form with their exported values; none
/// without a form.
pub open spec fn collected(doc: Document) -> Seq<(Seq<char>, Option<Seq<char>>)> {
    match acro_form_dict(doc) {
        Some(d) => collected_from(form_fields(d, doc.objects@)),
        None => Seq::empty(),
    }
}

pub open spec fn pairs_view(v: Seq<(String, Option<String>)>) -> Seq<(Seq<char>, Option<Seq<char>>)> {
    Seq::new(v.len(), |i: int| (v[i].0@, match v[i].1 {
        Some(s) => Some(s@),
        None => None,
    }))
}

/// The named fields of `doc`'s form and their values (see `collected`).
pub fn collect_field_values(doc: &Document) -> (r: Vec<(String, Option<String>)>)
    ensures pairs_view(r@) == collected(*doc),
{
    let mut result: Vec<(String, Option<String>)> = Vec::new();
    let form = match doc.acro_form() {
        Some(f) => f,
        None => {
            proof { assert(pairs_view(result@) =~= Seq::<(Seq<char>, Option<Seq<char>>)>::empty()); }
            return result;
        }
    };
    let fields = form.fields();
    let ghost ff = form_fields(form.dict@, form.store@);
    let mut i: usize = 0;
    while i < fields.len()
        invariant
            i <= fields@.len(),
            fields@.len() == ff.len(),
            forall|k: int| 0 <= k < fields@.len() ==> field_is(#[trigger] fields@[k], ff[k]),
            pairs_view(result@) == collected_from(ff.take(i as int)),
        decreases fields.len() - i,
    {
        proof {
            assert(ff.take(i + 1).drop_last() =~= ff.take(i as int));
            assert(field_is(fields@[i as int], ff[i as int]));
        }
        let name = fields[i].fully_qualified_name();
        if str_chars(name.as_str()).len() != 0 {
            let value = get_field_value_for_export(fields[i].dictionary());
            let ghost before = result@;
            result.push((name, value));
            proof { assert(pairs_view(result@) =~= pairs_view(before).push((name@, export_value(ff[i as int].1)))); }
        } else {
            proof { assert(collected_from(ff.take(i + 1)) =~= collected_from(ff.take(i as int))); }
        }
        i += 1;
    }
    proof { assert(ff.take(ff.len() as int) =~= ff); }
    result
}

/// A character written into XML text.
pub open spec fn xml_escape_char(c: char) -> Seq<char> {
    if c == '&' {
        "&amp;"@
    } else if c == '<' {
        "&lt;"@
    } else if c == '>' {
        "&gt;"@
    } else if c == '"' {
        "&quot;"@
    } else if c == '\'' {
        "&apos;"@
    } else {
        seq![c]
    }
}

/// Text with the XML special characters written as entities.
pub open spec fn xml_escaped(s: Seq<char>) -> Seq<char>
    decreases s.len(),
{
    if s.len() == 0 {
        Seq::empty()
    } else {
        xml_escaped(s.drop_last()) + xml_escape_char(s.last())
    }
}

/// A character written into a PDF literal string.
pub open spec fn pdf_escape_char(c: char) -> Seq<char> {
    if c == '(' {
        "\\("@
    } else if c == ')' {
        "\\)"@
    } else if c == '\\' {
        "\\\\"@
    } else if c == '\n' {
        "\\n"@
    } else if c == '\r' {
        "\\r"@
    } else if c == '\t' {
        "\\t"@
    } else {
        seq![c]
    }
}

/// Text with parentheses, backslashes and line breaks escaped for a PDF
/// literal string.
pub open spec fn pdf_escaped(s: Seq<char>) -> Seq<char>
    decreases s.len(),
{
    if s.len() == 0 {
        Seq::empty()
    } else {
        pdf_escaped(s.drop_last()) + pdf_escape_char(s.last())
    }
}

/// Escapes the XML special characters of `s` (see `xml_escaped`).
pub fn xml_escape(s: &str) -> (r: String)
    ensures r@ == xml_escaped(s@),
{
    let cs = str_chars(s);
    let mut out = String::new();
    let mut i: usize = 0;
    while i < cs.len()
        invariant i <= cs@.len(), cs@ == s@, out@ == xml_escaped(s@.take(i as int)),
        decreases cs.len() - i,
    {
        let c = cs[i];
        proof { assert(s@.take(i + 1).drop_last() =~= s@.take(i as int)); }
        if c == '&' {
            push_str(&mut out, "&amp;");
        } else if c == '<' {
            push_str(&mut out, "&lt;");
        } else if c == '>' {
            push_str(&mut out, "&gt;");
        } else if c == '"' {
            push_str(&mut out, "&quot;");
        } else if c == '\'' {
            push_str(&mut out, "&apos;");
        } else {
            push_char(&mut out, c);
        }
        proof { assert(out@ =~= xml_escaped(s@.take(i + 1))); }
        i += 1;
    }
    proof { assert(s@.take(s@.len() as int) =~= s@); }
    out
}

/// Escapes `s` for a PDF literal string (see `pdf_escaped`).
pub fn escape_pdf_string(s: &str) -> (r: String)
    ensures r@ == pdf_escaped(s@),
{
    let cs = str_chars(s);
    let mut out = String::new();
    let mut i: usize = 0;
    while i < cs.len()
        invariant i <= cs@.len(), cs@ == s@, out@ == pdf_escaped(s@.take(i as int)),
        decreases cs.len() - i,
    {
        let c = cs[i];
        proof { assert(s@.take(i + 1).drop_last() =~= s@.take(i as int)); }
        if c == '(' {
            push_str(&mut out, "\\(");
        } else if c == ')' {
            push_str(&mut out, "\\)");
        } else if c == '\\' {
            push_str(&mut out, "\\\\");
        } else if c == '\n' {
            push_str(&mut out, "\\n");
        } else if c == '\r' {
            push_str(&mut out, "\\r");
        } else if c == '\t' {
            push_str(&mut out, "\\t");
        } else {
            push_char(&mut out, c);
        }
        proof { assert(out@ =~= pdf_escaped(s@.take(i + 1))); }
        i += 1;
    }
    proof { assert(s@.take(s@.len() as int) =~= s@); }
    out
}

/// The text an object is written as in FDF output.
pub open spec fn ser(v: CosValue) -> Seq<char>
    decreases v, 2int,
{
    match v {
        CosValue::Null => "null"@,
        CosValue::Bool(b) => if b { "true"@ } else { "false"@ },
        CosValue::Integer(i) => decimal_text(i),
        CosValue::Real(t) => utf8_lossy(t),
        CosValue::Name(n) => utf8_lossy(n),
        CosValue::Str(b) => seq!['('] + pdf_escaped(utf8_lossy(b)) + seq![')'],
        CosValue::Array(a) => seq!['['] + ser_items(a) + seq![']'],
        CosValue::Dict(d) => "<< "@ + ser_entries(d) + " >>"@,
        CosValue::Ref(n, g) => decimal_text(n as int) + seq![' '] + decimal_text(g as int) + " R"@,
        CosValue::Stream(_, _) => "<< /Length 0 >>\nstream\nendstream"@,
    }
}

/// Array items written one after another, separated by spaces.
pub open spec fn ser_items(a: Seq<CosValue>) -> Seq<char>
    decreases a, 1int,
{
    if a.len() == 0 {
        Seq::empty()
    } else if a.len() == 1 {
        ser(a[0])
    } else {
        ser_items(a.drop_last()) + seq![' '] + ser(a.last())
    }
}

/// One dictionary entry: `/key value`.
pub open spec fn ser_entry(e: (Seq<u8>, CosValue)) -> Seq<char>
    decreases e, 1int,
{
    seq!['/'] + utf8_lossy(e.0) + seq![' '] + ser(e.1)
}

/// Dictionary entries written one per line.
pub open spec fn ser_entries(d: Seq<(Seq<u8>, CosValue)>) -> Seq<char>
    decreases d, 1int,
{
    if d.len() == 0 {
        Seq::empty()
    } else if d.len() == 1 {
        ser_entry(d[0])
    } else {
        ser_entries(d.drop_last()) + seq!['\n'] + ser_entry(d.last())
    }
}

/// The text `obj` is written as in FDF output (see `ser`).
pub fn serialize_cos(obj: &CosObject) -> (r: String)
    ensures r@ == ser(obj@),
    decreases obj,
{
    let mut out = String::new();
    match obj {
        CosObject::Null => push_str(&mut out, "null"),
        CosObject::Bool(b) => if *b { push_str(&mut out, "true") } else { push_str(&mut out, "false") },
        CosObject::Integer(i) => push_decimal(&mut out, *i),
        CosObject::Real(t) => {
            let s = crate::text::from_utf8_lossy(t.as_slice());
            push_str(&mut out, s.as_str());
        }
        CosObject::Name(n) => {
            let s = crate::text::from_utf8_lossy(n.as_bytes());
            push_str(&mut out, s.as_str());
        }
        CosObject::String(b) => {
            let s = crate::text::from_utf8_lossy(b.as_slice());
            let e = escape_pdf_string(s.as_str());
            push_char(&mut out, '(');
            push_str(&mut out, e.as_str());
            push_char(&mut out, ')');
        }
        CosObject::Array(items) => {
            let ghost a = view_objs(items@);
            proof { crate::cos::lemma_view_objs(items@); }
            push_char(&mut out, '[');
            let mut i: usize = 0;
            while i < items.len()
                invariant
                    *obj == CosObject::Array(*items),
                    i <= items@.len(),
                    a == view_objs(items@),
                    a.len() == items@.len(),
                    forall|q: int| 0 <= q < items@.len() ==> a[q] == view_obj(#[trigger] items@[q]),
                    out@ == seq!['['] + ser_items(a.take(i as int)),
                decreases items.len() - i,
            {
                proof {
                    broadcast use vstd::std_specs::vec::axiom_vec_index_decreases;
                    broadcast use vstd::std_specs::vec::axiom_vec_decreases_to_view;
                    assert(decreases_to!(*obj => obj->Array_0));
                    assert(decreases_to!(*items => items@));
                    assert(decreases_to!(items@ => items@[i as int]));
                    assert(decreases_to!(*obj => items@[i as int]));
                }
                let s = serialize_cos(&items[i]);
                let ghost before = out@;
                if i > 0 {
                    push_char(&mut out, ' ');
                }
                push_str(&mut out, s.as_str());
                proof {
                    let t = a.take(i + 1);
                    assert(t.drop_last() =~= a.take(i as int));
                    assert(t.last() == a[i as int]);
                    if i == 0 {
                        assert(ser_items(t) == ser(t[0]));
                        assert(out@ =~= seq!['['] + ser_items(t));
                    } else {
                        assert(out@ =~= seq!['['] + ser_items(t));
                    }
                }
                i += 1;
            }
            push_char(&mut out, ']');
            proof { assert(a.take(items@.len() as int) =~= a); }
        }
        CosObject::Dictionary(d) => {
            let ghost e = d@;
            proof { crate::cos::lemma_view_entries(d.entries@); }
            push_str(&mut out, "<< ");
            let mut i: usize = 0;
            while i < d.entries.len()
                invariant
                    *obj == CosObject::Dictionary(*d),
                    i <= d.entries@.len(),
                    e == d@,
                    e.len() == d.entries@.len(),
                    forall|q: int| 0 <= q < d.entries@.len() ==> e[q] == (#[trigger] d.entries@[q].0.bytes@, view_obj(d.entries@[q].1)),
                    out@ == "<< "@ + ser_entries(e.take(i as int)),
                decreases d.entries.len() - i,
            {
                proof {
                    broadcast use vstd::std_specs::vec::axiom_vec_index_decreases;
                    broadcast use vstd::std_specs::vec::axiom_vec_decreases_to_view;
                    assert(decreases_to!(*obj => obj->Dictionary_0));
                    assert(decreases_to!(*d => d.entries));
                    assert(decreases_to!(d.entries => d.entries@));
                    assert(decreases_to!(d.entries@ => d.entries@[i as int]));
                    assert(decreases_to!(d.entries@[i as int] => d.entries@[i as int].1));
                    assert(decreases_to!(*obj => d.entries@[i as int].1));
                }
                let k = crate::text::from_utf8_lossy(d.entries[i].0.as_bytes());
                let s = serialize_cos(&d.entries[i].1);
                let ghost before = out@;
                if i > 0 {
                    push_char(&mut out, '\n');
                }
                push_char(&mut out, '/');
                push_str(&mut out, k.as_str());
                push_char(&mut out, ' ');
                push_str(&mut out, s.as_str());
                proof {
                    let t = e.take(i + 1);
                    assert(t.drop_last() =~= e.take(i as int));
                    assert(t.last() == e[i as int]);
                    assert(ser_entry(e[i as int]) =~= seq!['/'] + k@ + seq![' '] + s@);
                    if i == 0 {
                        assert(ser_entries(t) == ser_entry(t[0]));
                        assert(out@ =~= "<< "@ + ser_entries(t));
                    } else {
                        assert(out@ =~= "<< "@ + ser_entries(t));
                    }
                }
                i += 1;
            }
            push_str(&mut out, " >>");
            proof { assert(e.take(e.len() as int) =~= e); }
        }
        CosObject::Reference(id) => {
            push_digits(&mut out, id.object_number as u64);
            push_char(&mut out, ' ');
            push_digits(&mut out, id.generation as u64);
            push_str(&mut out, " R");
        }
        CosObject::Stream(_) => push_str(&mut out, "<< /Length 0 >>\nstream\nendstream"),
    }
    proof { assert(out@ =~= ser(obj@)); }
    out
}

/// Appends the UTF-8 bytes of `s`.
pub fn push_text_bytes(out: &mut Vec<u8>, s: &str)
    ensures final(out)@ == old(out)@ + lit(s),
{
    let b = s.as_bytes();
    let mut i: usize = 0;
    let ghost base = out@;
    while i < b.len()
        invariant i <= b@.len(), b@ == lit(s), out@ == base + b@.take(i as int),
        decreases b.len() - i,
    {
        out.push(b[i]);
        proof { assert(out@ =~= base + b@.take(i + 1)); }
        i += 1;
    }
    proof { assert(b@.take(b@.len() as int) =~= b@); }
}

/// The FDF entry of one field: `/T` its name and, when it has one, `/V`
/// its value, both as strings.
pub open spec fn fdf_field(p: (Seq<char>, Option<Seq<char>>)) -> CosValue {
    let t = dict_insert(Seq::empty(), lit("T"), CosValue::Str(encode_utf8(p.0)));
    CosValue::Dict(match p.1 {
        Some(v) => dict_insert(t, lit("V"), CosValue::Str(encode_utf8(v))),
        None => t,
    })
}

/// The FDF document object: `<< /FDF << /Fields [...] >> >>`.
pub open spec fn fdf_root(ps: Seq<(Seq<char>, Option<Seq<char>>)>) -> CosValue {
    CosValue::Dict(dict_insert(Seq::empty(), lit("FDF"),
        CosValue::Dict(dict_insert(Seq::empty(), lit("Fields"),
            CosValue::Array(Seq::new(ps.len(), |i: int| fdf_field(ps[i])))))))
}

/// The FDF file for the named fields `ps`; empty when there are none.
pub open spec fn fdf_bytes(ps: Seq<(Seq<char>, Option<Seq<char>>)>) -> Seq<u8> {
    if ps.len() == 0 {
        Seq::empty()
    } else {
        lit("%FDF-1.2\n1 0 obj\n") + encode_utf8(ser(fdf_root(ps))) + lit("\nendobj\ntrailer\n<< /Root 1 0 R >>\n%%EOF\n")
    }
}

/// The form's named field values as an FDF file (see `fdf_bytes`).
pub fn export_fdf(doc: &Document) -> (r: PdfResult<Vec<u8>>)
    ensures r is Ok && r->Ok_0@ == fdf_bytes(collected(*doc)),
{
    let fields = collect_field_values(doc);
    let ghost ps = pairs_view(fields@);
    if fields.len() == 0 {
        return Ok(Vec::new());
    }
    let mut fdf_fields: Vec<CosObject> = Vec::new();
    let mut i: usize = 0;
    while i < fields.len()
        invariant
            i <= fields@.len(),
            ps == pairs_view(fields@),
            view_objs(fdf_fields@) == Seq::new(i as nat, |k: int| fdf_field(ps[k])),
        decreases fields.len() - i,
    {
        let name_s: &str = fields[i].0.as_str();
        let nb = crate::bytes::str_bytes(name_s);
        let mut field_dict = CosDictionary::new();
        field_dict.insert(CosName::named("T"), CosObject::String(nb));
        match &fields[i].1 {
            Some(v) => {
                let vs: &str = v.as_str();
                let vb = crate::bytes::str_bytes(vs);
                proof { assert(vb@ == encode_utf8(vs@)); }
                field_dict.insert(CosName::named("V"), CosObject::String(vb));
            }
            None => {}
        }
        proof {
            assert(nb@ == encode_utf8(name_s@));
            assert(CosValue::Dict(field_dict@) == fdf_field(ps[i as int]));
        }
        let ghost before = fdf_fields@;
        let item = CosObject::Dictionary(field_dict);
        let ghost iv = item@;
        fdf_fields.push(item);
        proof {
            assert(fdf_fields@.drop_last() =~= before);
            assert(view_objs(fdf_fields@) == view_objs(before).push(iv));
            assert(view_objs(fdf_fields@) =~= Seq::new((i + 1) as nat, |k: int| fdf_field(ps[k])));
        }
        i += 1;
    }
    let mut fdf_dict = CosDictionary::new();
    fdf_dict.insert(CosName::named("Fields"), CosObject::Array(fdf_fields));
    let mut root_dict = CosDictionary::new();
    root_dict.insert(CosName::named("FDF"), CosObject::Dictionary(fdf_dict));
    let root = CosObject::Dictionary(root_dict);
    proof { assert(root@ == fdf_root(ps)); }
    let text = serialize_cos(&root);
    let mut out: Vec<u8> = Vec::new();
    push_text_bytes(&mut out, "%FDF-1.2\n1 0 obj\n");
    push_text_bytes(&mut out, text.as_str());
    push_text_bytes(&mut out, "\nendobj\ntrailer\n<< /Root 1 0 R >>\n%%EOF\n");
    proof { assert(out@ =~= fdf_bytes(ps)); }
    Ok(out)
}

/// The XFDF lines of one field.
pub open spec fn xfdf_field(p: (Seq<char>, Option<Seq<char>>)) -> Seq<u8> {
    lit("    <field name=\"") + encode_utf8(xml_escaped(p.0)) + lit("\">\n") + match p.1 {
        Some(v) => lit("      <value>") + encode_utf8(xml_escaped(v)) + lit("</value>\n"),
        None => Seq::empty(),
    } + lit("    </field>\n")
}

pub open spec fn xfdf_fields(ps: Seq<(Seq<char>, Option<Seq<char>>)>) -> Seq<u8>
    decreases ps.len(),
{
    if ps.len() == 0 {
        Seq::empty()
    } else {
        xfdf_fields(ps.drop_last()) + xfdf_field(ps.last())
    }
}

/// The XFDF file for the named fields `ps`; empty when there are none.
pub open spec fn xfdf_bytes(ps: Seq<(Seq<char>, Option<Seq<char>>)>) -> Seq<u8> {
    if ps.len() == 0 {
        Seq::empty()
    } else {
        lit("<?xml version=\"1.0\" encoding=\"UTF-8\"?>\n<xfdf xmlns=\"http://ns.adobe.com/xfdf/\" xml:space=\"preserve\">\n  <fields>\n")
            + xfdf_fields(ps) + lit("  </fields>\n</xfdf>\n")
    }
}

/// The form's named field values as an XFDF file (see `xfdf_bytes`).
pub fn export_xfdf(doc: &Document) -> (r: PdfResult<Vec<u8>>)
    ensures r is Ok && r->Ok_0@ == xfdf_bytes(collected(*doc)),
{
    let fields = collect_field_values(doc);
    let ghost ps = pairs_view(fields@);
    if fields.len() == 0 {
        return Ok(Vec::new());
    }
    let mut out: Vec<u8> = Vec::new();
    push_text_bytes(&mut out, "<?xml version=\"1.0\" encoding=\"UTF-8\"?>\n<xfdf xmlns=\"http://ns.adobe.com/xfdf/\" xml:space=\"preserve\">\n  <fields>\n");
    let ghost head = out@;
    let mut i: usize = 0;
    while i < fields.len()
        invariant
            i <= fields@.len(),
            ps == pairs_view(fields@),
            out@ == head + xfdf_fields(ps.take(i as int)),
        decreases fields.len() - i,
    {
        proof {
            assert(ps.take(i + 1).drop_last() =~= ps.take(i as int));
            assert(ps.take(i + 1).last() == ps[i as int]);
        }
        let ghost before = out@;
        let name = xml_escape(fields[i].0.as_str());
        push_text_bytes(&mut out, "    <field name=\"");
        push_text_bytes(&mut out, name.as_str());
        push_text_bytes(&mut out, "\">\n");
        match &fields[i].1 {
            Some(v) => {
                let val = xml_escape(v.as_str());
                push_text_bytes(&mut out, "      <value>");
                push_text_bytes(&mut out, val.as_str());
                push_text_bytes(&mut out, "</value>\n");
            }
            None => {}
        }
        push_text_bytes(&mut out, "    </field>\n");
        proof { assert(out@ =~= before + xfdf_field(ps[i as int])); }
        i += 1;
    }
    push_text_bytes(&mut out, "  </fields>\n</xfdf>\n");
    proof {
        assert(ps.take(ps.len() as int) =~= ps);
        assert(out@ =~= xfdf_bytes(ps));
    }
    Ok(out)
}

} // verus!

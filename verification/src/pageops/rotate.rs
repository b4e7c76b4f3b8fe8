//! Rotating a page.

use vstd::prelude::*;
use crate::bytes::lit;
use crate::cos::{CosName, CosObject, CosValue, ObjectId, dict_insert, dict_lookup};
use crate::document::{Document, PdfError, PdfResult, store_find};
use crate::pdmodel::page::{lemma_rem_norm, rem_trunc};
use crate::pdmodel::page_tree::document_pages;
use crate::text::{decimal_text, push_digits, push_str};

verus! {

/// The `/Rotate` of a stored page, modulo 360 (0 when absent).
pub open spec fn page_rotation(store: Seq<(ObjectId, CosValue)>, id: ObjectId) -> int {
    match store_find(store, id) {
        Some(CosValue::Dict(d)) => (match dict_lookup(d, lit("Rotate")) {
            Some(CosValue::Integer(n)) => (n as i64) as int,
            _ => 0int,
        }) % 360,
        _ => 0,
    }
}

/// A rotation plus `degrees`, brought into `0..360`.
pub open spec fn turned(current: int, degrees: int) -> int {
    let r = rem_trunc(current + degrees, 360);
    if r < 0 { r + 360 } else { r }
}

/// The `/Rotate` integer of a stored page (0 when absent).
pub open spec fn raw_rotate(store: Seq<(ObjectId, CosValue)>, id: ObjectId) -> int {
    match store_find(store, id) {
        Some(CosValue::Dict(d)) => match dict_lookup(d, lit("Rotate")) {
            Some(CosValue::Integer(n)) => (n as i64) as int,
            _ => 0int,
        },
        _ => 0,
    }
}

/// The sum of the page's `/Rotate` remainder by 360 (its sign kept) and
/// `degrees` stays within 64 bits for the page at `page_index`.
pub open spec fn rotation_fits(doc: &Document, page_index: usize, degrees: i64) -> bool {
    match document_pages(doc) {
        Some(p) => page_index < p.len() ==> i64::MIN <= rem_trunc(raw_rotate(doc.objects@, p[page_index as int]), 360) + degrees <= i64::MAX,
        None => true,
    }
}

/// Adds `degrees` to the rotation of the page at `page_index` (the result
/// kept in `0..360`). An error when the page tree cannot be walked or the
/// index is past the last page; nothing changes then.
pub fn rotate_page(doc: &mut Document, page_index: usize, degrees: i64) -> (r: PdfResult<()>)
    requires rotation_fits(old(doc), page_index, degrees),
    ensures
        final(doc).xref.trailer@ == old(doc).xref.trailer@,
        match document_pages(old(doc)) {
            None => r is Err && final(doc).objects@ == old(doc).objects@,
            Some(p) => if page_index >= p.len() {
                (r matches Err(PdfError::Parse { offset: None, context: c })
                    && c@ == "page index out of bounds: "@ + decimal_text(page_index as int))
                    && final(doc).objects@ == old(doc).objects@
            } else {
                let id = p[page_index as int];
                &&& r is Ok
                &&& store_find(final(doc).objects@, id) == match store_find(old(doc).objects@, id) {
                    Some(CosValue::Dict(d)) => Some(CosValue::Dict(dict_insert(d, lit("Rotate"),
                        CosValue::Integer(turned(page_rotation(old(doc).objects@, id), degrees as int))))),
                    other => other,
                }
                &&& forall|q: ObjectId| q != id ==> #[trigger] store_find(final(doc).objects@, q) == store_find(old(doc).objects@, q)
            },
        },
{
    let (page_id, current) = {
        let tree = match doc.pages() {
            Ok(t) => t,
            Err(e) => return Err(e),
        };
        if page_index >= tree.pages.len() {
            let mut m = String::new();
            push_str(&mut m, "page index out of bounds: ");
            push_digits(&mut m, page_index as u64);
            proof { assert(m@ =~= "page index out of bounds: "@ + decimal_text(page_index as int)); }
            return Err(PdfError::Parse { offset: None, context: m });
        }
        let page = tree.get(page_index).unwrap();
        let id = tree.pages[page_index].0;
        proof {
            assert(tree.pages@[page_index as int].0 == crate::pdmodel::page_tree::ids_of(tree.pages@)[page_index as int]);
            assert(store_find(doc.objects@, id) == Some(CosValue::Dict(page.dict@)));
        }
        let raw: i64 = match page.dict.get_int(&CosName::named("Rotate")) {
            Some(n) => n,
            None => 0,
        };
        (id, raw % 360)
    };
    proof {
        let r = raw_rotate(doc.objects@, page_id);
        lemma_rem_norm(r);
        assert(current == rem_trunc(r, 360));
        lemma_turned_is_mod(current as int, degrees as int);
        lemma_turned_is_mod(r % 360, degrees as int);
        if current < 0 {
            assert(current + 360 == r % 360);
            assert((current + 360 + degrees) % 360 == (current + degrees) % 360) by (nonlinear_arith);
        }
        assert(turned(current as int, degrees as int) == turned(page_rotation(doc.objects@, page_id), degrees as int));
    }
    let sum = current + degrees;
    let m = sum % 360;
    let new_rotation = if m < 0 { m + 360 } else { m };
    match doc.take_object(page_id) {
        Some(CosObject::Dictionary(mut d)) => {
            d.insert(CosName::named("Rotate"), CosObject::Integer(new_rotation));
            doc.insert_object(page_id, CosObject::Dictionary(d));
        }
        Some(other) => {
            doc.insert_object(page_id, other);
        }
        None => {}
    }
    Ok(())
}

/// Rotating twice is rotating once by the sum: the `/Rotate` that
/// `rotate_page` stores after turning by `a` and then by `b` is the one it
/// stores after turning by `a + b`, and every stored rotation is in
/// `0..360`.
pub proof fn lemma_rotate_twice(p: int, a: int, b: int)
    ensures
        0 <= turned(p, a) < 360,
        turned(turned(p, a) % 360, b) == turned(p, a + b),
{
    lemma_turned_is_mod(p, a);
    lemma_turned_is_mod(turned(p, a), b);
    lemma_turned_is_mod(p, a + b);
    assert(turned(p, a) % 360 == turned(p, a));
    assert(((p + a) % 360 + b) % 360 == (p + a + b) % 360) by (nonlinear_arith);
}

/// `turned` is the Euclidean remainder of the sum by 360.
proof fn lemma_turned_is_mod(x: int, d: int)
    ensures turned(x, d) == (x + d) % 360, 0 <= turned(x, d) < 360,
{
    lemma_rem_norm(x + d);
}

} // verus!

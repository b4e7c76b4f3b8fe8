//! Splitting a document into documents of a few pages each.

use vstd::prelude::*;
use crate::cos::ObjectId;
use crate::document::{Document, PdfResult, store_max};
use crate::pageops::extract::{extract_pages, extracted, has_page_node, picked_pages};
use crate::pdmodel::page_tree::document_pages;

verus! {

/// The sizes of the chunks of `total` pages cut every `k` pages, from
/// `start` on.
pub open spec fn chunk_sizes(start: int, total: int, k: int) -> Seq<int>
    decreases total - start,
{
    if start >= total || k <= 0 {
        Seq::empty()
    } else {
        let end = if k >= total - start { total } else { start + k };
        seq![end - start] + chunk_sizes(end, total, k)
    }
}

/// Number of pages of a document (0 when its page tree cannot be walked).
pub open spec fn page_total(doc: &Document) -> int {
    match document_pages(doc) {
        Some(p) => p.len() as int,
        None => 0,
    }
}

/// The pages of part `j` when `p` is cut every `k` pages: `j*k` up to
/// `(j+1)*k`, the last part cut at the end.
pub open spec fn part_pages(p: Seq<ObjectId>, j: int, k: int) -> Seq<ObjectId> {
    let b = if (j + 1) * k < p.len() { (j + 1) * k } else { p.len() as int };
    p.subrange(j * k, b)
}

/// Splits the document it holds.
pub struct PdfSplitter<'a> {
    pub doc: &'a mut Document,
}

impl<'a> PdfSplitter<'a> {
    pub fn new(doc: &'a mut Document) -> (r: PdfSplitter<'a>)
        ensures *r.doc == *old(doc),
    {
        PdfSplitter { doc }
    }

    /// Cuts the pages into runs of `pages_per_doc` (the last one shorter) and
    /// extracts each run into a new document: part `j` holds copies of pages
    /// `j*pages_per_doc` up to `(j+1)*pages_per_doc`, in order.
    pub fn split(&mut self, pages_per_doc: usize) -> (r: PdfResult<Vec<Document>>)
        requires
            pages_per_doc > 0 || page_total(&*old(self).doc) == 0,
            page_total(&*old(self).doc) > 0 ==> pages_per_doc * ((page_total(&*old(self).doc) - 1) / (pages_per_doc as int))
                + pages_per_doc <= usize::MAX,
            store_max((*old(self).doc).objects@) < u32::MAX,
        ensures
            r is Ok,
            match r {
                Ok(v) => {
                    let sizes = chunk_sizes(0, page_total(&*old(self).doc), pages_per_doc as int);
                    &&& v@.len() == sizes.len()
                    &&& forall|j: int| 0 <= j < v@.len() ==> has_page_node(#[trigger] v@[j], sizes[j])
                    &&& forall|j: int| 0 <= j < v@.len() && sizes[j] + 2 <= u32::MAX
                        ==> (document_pages(&#[trigger] v@[j]) matches Some(q) && q.len() == sizes[j])
                    &&& forall|j: int| 0 <= j < v@.len() ==> extracted(#[trigger] v@[j], (*old(self).doc).objects@,
                        part_pages(document_pages(&*old(self).doc)->Some_0, j, pages_per_doc as int))
                },
                Err(_) => true,
            },
            final(self).doc.objects@ == old(self).doc.objects@,
    {
        let total = self.doc.page_count();
        let ghost t = total as int;
        let ghost k = pages_per_doc as int;
        let ghost sizes = chunk_sizes(0, t, k);
        let ghost objs = (*self.doc).objects@;
        let ghost allp = document_pages(&*self.doc);
        let mut results: Vec<Document> = Vec::new();
        let mut start: usize = 0;
        while start < total
            invariant
                start <= total,
                t == total,
                t == page_total(&*self.doc),
                k == pages_per_doc,
                pages_per_doc > 0 || total == 0,
                store_max((*self.doc).objects@) < u32::MAX,
                sizes == chunk_sizes(0, t, k),
                results@.len() + chunk_sizes(start as int, t, k).len() == sizes.len(),
                forall|j: int| 0 <= j < results@.len() ==> has_page_node(#[trigger] results@[j], sizes[j]),
                forall|j: int| 0 <= j < results@.len() && sizes[j] + 2 <= u32::MAX
                    ==> (document_pages(&#[trigger] results@[j]) matches Some(q) && q.len() == sizes[j]),
                sizes.skip(results@.len() as int) == chunk_sizes(start as int, t, k),
                (*self.doc).objects@ == objs,
                document_pages(&*self.doc) == allp,
                start < total ==> start == results@.len() * k,
                forall|j: int| 0 <= j < results@.len() ==> extracted(#[trigger] results@[j], objs, part_pages(allp->Some_0, j, k)),
            decreases total - start,
        {
            let end = if pages_per_doc >= total - start { total } else { start + pages_per_doc };
            let mut indices: Vec<usize> = Vec::new();
            let mut i = start;
            while i < end
                invariant start <= i <= end, indices@ == Seq::new((i - start) as nat, |q: int| (start + q) as usize),
                decreases end - i,
            {
                indices.push(i);
                proof { assert(indices@ =~= Seq::new((i + 1 - start) as nat, |q: int| (start + q) as usize)); }
                i += 1;
            }
            let ghost before = results@;
            let ghost pages = document_pages(&*self.doc)->Some_0;
            proof { lemma_picked_range(pages, start as int, end as int); }
            let doc = match extract_pages(self.doc, indices.as_slice()) {
                Ok(d) => d,
                Err(e) => return Err(e),
            };
            results.push(doc);
            proof {
                let j = before.len() as int;
                assert((j + 1) * k == j * k + k) by (nonlinear_arith);
                assert(part_pages(pages, j, k) == pages.subrange(start as int, end as int));
                assert(forall|q: int| 0 <= q < before.len() ==> results@[q] == before[q]);
                let rest = chunk_sizes(start as int, t, k);
                assert(rest == seq![end - start] + chunk_sizes(end as int, t, k));
                assert(sizes.skip(before.len() as int)[0] == end - start);
                assert(sizes[before.len() as int] == end - start);
                assert(sizes.skip(results@.len() as int) =~= sizes.skip(before.len() as int).skip(1));
            }
            proof {
                let j = before.len() as int;
                assert((j + 1) * k == j * k + k) by (nonlinear_arith);
            }
            start = end;
        }
        proof { assert(results@.len() == sizes.len()); }
        Ok(results)
    }
}

/// Picking the indices `a..b` (all within the pages) picks pages `a..b`.
proof fn lemma_picked_range(p: Seq<ObjectId>, a: int, b: int)
    requires 0 <= a <= b <= p.len(), b <= usize::MAX,
    ensures
        picked_pages(p, Seq::new((b - a) as nat, |q: int| (a + q) as usize)) == p.subrange(a, b),
        picked_pages(p, Seq::new((b - a) as nat, |q: int| (a + q) as usize)).len() == b - a,
    decreases b - a,
{
    let s = Seq::new((b - a) as nat, |q: int| (a + q) as usize);
    if b > a {
        lemma_picked_range(p, a, b - 1);
        assert(s.drop_last() =~= Seq::new((b - 1 - a) as nat, |q: int| (a + q) as usize));
        assert(p.subrange(a, b - 1) + seq![p[b - 1]] =~= p.subrange(a, b));
        assert(s.last() == (b - 1) as usize);
        assert(((b - 1) as usize) as int == b - 1);
        assert(picked_pages(p, s) == picked_pages(p, s.drop_last()) + seq![p[b - 1]]);
    } else {
        assert(p.subrange(a, b) =~= Seq::<ObjectId>::empty());
    }
}

pub open spec fn total_of(s: Seq<int>) -> int
    decreases s.len(),
{
    if s.len() == 0 { 0 } else { s[0] + total_of(s.drop_first()) }
}

/// Splitting covers every page once, in order: the chunks `split` makes from
/// `start` hold `total - start` pages together, each holds between 1 and `k`
/// pages, and every chunk but the last holds exactly `k`.
pub proof fn lemma_chunks_cover(start: int, total: int, k: int)
    requires 0 <= start <= total, k > 0,
    ensures
        total_of(chunk_sizes(start, total, k)) == total - start,
        forall|j: int| 0 <= j < chunk_sizes(start, total, k).len() ==> 1 <= #[trigger] chunk_sizes(start, total, k)[j] <= k,
        forall|j: int| 0 <= j < chunk_sizes(start, total, k).len() - 1 ==> #[trigger] chunk_sizes(start, total, k)[j] == k,
    decreases total - start,
{
    if start < total {
        let end = if k >= total - start { total } else { start + k };
        lemma_chunks_cover(end, total, k);
        let rest = chunk_sizes(end, total, k);
        let full = chunk_sizes(start, total, k);
        assert(full =~= seq![end - start] + rest);
        assert(full.drop_first() =~= rest);
        assert forall|j: int| 0 <= j < full.len() implies 1 <= #[trigger] full[j] <= k by {
            if j > 0 {
                assert(full[j] == rest[j - 1]);
            }
        }
        assert forall|j: int| 0 <= j < full.len() - 1 implies #[trigger] full[j] == k by {
            if j > 0 {
                assert(full[j] == rest[j - 1]);
            } else {
                assert(rest.len() > 0);
                assert(end < total);
            }
        }
    }
}

} // verus!

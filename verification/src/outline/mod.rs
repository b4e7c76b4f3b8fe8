//! The document outline (bookmarks): a tree of items linked by `/First`,
//! `/Last`, `/Next`, `/Prev` and `/Parent` references.

pub mod dest;
pub mod item;

use vstd::prelude::*;
use crate::bytes::lit;
use crate::cos::{CosDictionary, CosName, CosObject, CosValue, ObjectId, dict_lookup};
use crate::document::{Document, ObjectStore, store_find};
use crate::outline::item::{OutlineItem, item_ids, linked, link, sibling_chain, subtree};



verus! {

/// The outline root dictionary (the catalog's `/Outlines`).
#[derive(Debug, Clone, Copy)]
pub struct DocumentOutline<'a> {
    pub dict: &'a CosDictionary,
    pub store: &'a ObjectStore,
}

/// The ids of the top-level items and, after each, its descendants.
pub open spec fn all_item_ids(store: Seq<(ObjectId, CosValue)>, d: Seq<(Seq<u8>, CosValue)>, fuel: nat) -> Seq<ObjectId> {
    tree_ids(store, linked(store, d, lit("First")), fuel, fuel)
}

/// Each item of a sibling chain followed by its subtree, at most `n` items.
pub open spec fn tree_ids(
    store: Seq<(ObjectId, CosValue)>,
    cur: Option<(ObjectId, Seq<(Seq<u8>, CosValue)>)>,
    n: nat,
    fuel: nat,
) -> Seq<ObjectId>
    decreases n,
{
    match cur {
        None => Seq::empty(),
        Some(p) => if n == 0 {
            Seq::empty()
        } else {
            seq![p.0] + subtree(store, p.1, fuel) + tree_ids(store, linked(store, p.1, lit("Next")), (n - 1) as nat, fuel)
        },
    }
}

/// The `/Count` entry (0 when missing or not an integer).
pub open spec fn count_entry(d: Seq<(Seq<u8>, CosValue)>) -> i64 {
    match dict_lookup(d, lit("Count")) {
        Some(CosValue::Integer(c)) => c as i64,
        _ => 0,
    }
}

impl<'a> DocumentOutline<'a> {
    pub fn new(dict: &'a CosDictionary, store: &'a ObjectStore) -> (r: DocumentOutline<'a>)
        ensures r.dict == dict, r.store == store,
    {
        DocumentOutline { dict, store }
    }

    /// The outline dictionary.
    pub fn dictionary(&self) -> (r: &CosDictionary)
        ensures r == self.dict,
    {
        self.dict
    }

    /// The first top-level item (`/First`), when it names a stored dictionary.
    pub fn first_item(&self) -> (r: Option<OutlineItem<'a>>)
        ensures
            match linked(self.store@, self.dict@, lit("First")) {
                Some(p) => r is Some && r->Some_0.id == p.0 && r->Some_0.dict@ == p.1 && r->Some_0.store == self.store,
                None => r is None,
            },
    {
        link(self.dict, self.store, "First")
    }

    /// The last top-level item (`/Last`).
    pub fn last_item(&self) -> (r: Option<OutlineItem<'a>>)
        ensures
            match linked(self.store@, self.dict@, lit("Last")) {
                Some(p) => r is Some && r->Some_0.id == p.0 && r->Some_0.dict@ == p.1 && r->Some_0.store == self.store,
                None => r is None,
            },
    {
        link(self.dict, self.store, "Last")
    }

    /// The magnitude of `/Count` (0 when missing).
    pub fn count(&self) -> (r: i64)
        requires count_entry(self.dict@) != i64::MIN,
        ensures r == (if count_entry(self.dict@) < 0 { -count_entry(self.dict@) } else { count_entry(self.dict@) as int }),
    {
        let c = match self.dict.get_int(&CosName::count()) {
            Some(c) => c,
            None => 0,
        };
        if c < 0 { -c } else { c }
    }

    /// The top-level items: `/First`, then `/Next` links, as long as they name
    /// stored dictionaries (at most as many as there are stored objects).
    pub fn items(&self) -> (r: Vec<OutlineItem<'a>>)
        ensures
            item_ids(r@) == sibling_chain(self.store@, linked(self.store@, self.dict@, lit("First")), self.store@.len()),
            forall|k: int| 0 <= k < r@.len() ==> (#[trigger] r@[k]).store == self.store
                && store_find(self.store@, r@[k].id) == Some(CosValue::Dict(r@[k].dict@)),
    {
        item::chain_from(self.first_item(), self.store, self.store.len())
    }

    /// Every item, depth first: each top-level item followed by its
    /// descendants.
    pub fn all_items(&self) -> (r: Vec<OutlineItem<'a>>)
        ensures
            item_ids(r@) == all_item_ids(self.store@, self.dict@, self.store@.len()),
    {
        let fuel = self.store.len();
        let mut out: Vec<OutlineItem<'a>> = Vec::new();
        let mut cur = self.first_item();
        let mut n = fuel;
        let mut go = true;
        let ghost target = all_item_ids(self.store@, self.dict@, fuel as nat);
        proof {
            assert(item_ids(out@) =~= Seq::<ObjectId>::empty());
            match cur {
                Some(it) => { assert(item_ids(out@) + tree_ids(self.store@, Some((it.id, it.dict@)), n as nat, fuel as nat) =~= target); }
                None => {}
            }
        }
        while go
            invariant
                fuel == self.store@.len(),
                n <= fuel,
                go ==> match cur {
                    Some(it) => it.store == self.store
                        && item_ids(out@) + tree_ids(self.store@, Some((it.id, it.dict@)), n as nat, fuel as nat) == target,
                    None => item_ids(out@) == target,
                },
                !go ==> item_ids(out@) == target,
            decreases 2 * n + (if go { 1int } else { 0 }),
        {
            match cur {
                Some(it) => {
                    if n == 0 {
                        proof { assert(item_ids(out@) + Seq::<ObjectId>::empty() =~= item_ids(out@)); }
                        go = false;
                    } else {
                        let ghost before = item_ids(out@);
                        out.push(it);
                        let desc = it.descendants();
                        let mut k: usize = 0;
                        while k < desc.len()
                            invariant
                                k <= desc@.len(),
                                item_ids(out@) == before.push(it.id) + item_ids(desc@).take(k as int),
                            decreases desc.len() - k,
                        {
                            let e = desc[k];
                            let ghost mid = out@;
                            out.push(e);
                            proof {
                                assert(e.id == item_ids(desc@)[k as int]);
                                assert(item_ids(out@) =~= item_ids(mid).push(e.id));
                                assert(item_ids(out@) =~= before.push(it.id) + item_ids(desc@).take(k + 1));
                            }
                            k += 1;
                        }
                        proof { assert(item_ids(desc@).take(desc@.len() as int) =~= item_ids(desc@)); }
                        let next = it.next();
                        proof {
                            let rest = tree_ids(self.store@, linked(self.store@, it.dict@, lit("Next")), (n - 1) as nat, fuel as nat);
                            assert(before + (seq![it.id] + subtree(self.store@, it.dict@, fuel as nat) + rest)
                                =~= item_ids(out@) + rest);
                            match next {
                                Some(nx) => {}
                                None => { assert(item_ids(out@) + rest =~= item_ids(out@)); }
                            }
                        }
                        cur = next;
                        n = n - 1;
                    }
                }
                None => {
                    go = false;
                }
            }
        }
        out
    }
}

/// Outline access on a document.
pub trait OutlineExt {
    /// The document outline, when the catalog has one.
    fn outline(&self) -> Option<DocumentOutline<'_>>;
}

/// The outline dictionary: the catalog's `/Outlines`, given directly or by
/// reference to a stored dictionary.
pub open spec fn outline_dict(doc: &Document) -> Option<Seq<(Seq<u8>, CosValue)>> {
    match doc.catalog_dict() {
        Some(cat) => match dict_lookup(cat, lit("Outlines")) {
            Some(CosValue::Ref(n, g)) => match store_find(doc.objects@, ObjectId { object_number: n, generation: g }) {
                Some(CosValue::Dict(d)) => Some(d),
                _ => None,
            },
            Some(CosValue::Dict(d)) => Some(d),
            _ => None,
        },
        None => None,
    }
}

impl Document {
    /// The document outline, when the catalog has one.
    pub fn document_outline(&self) -> (r: Option<DocumentOutline<'_>>)
        ensures
            match outline_dict(self) {
                Some(d) => r is Some && r->Some_0.dict@ == d && r->Some_0.store == &self.objects,
                None => r is None,
            },
    {
        let catalog = match self.catalog() {
            Some(c) => c,
            None => return None,
        };
        let d = match catalog.get(&CosName::named("Outlines")) {
            Some(CosObject::Reference(id)) => match self.get_object_ref(*id) {
                Some(CosObject::Dictionary(d)) => d,
                _ => return None,
            },
            Some(CosObject::Dictionary(d)) => d,
            _ => return None,
        };
        Some(DocumentOutline::new(d, &self.objects))
    }
}

impl OutlineExt for Document {
    fn outline(&self) -> Option<DocumentOutline<'_>> {
        self.document_outline()
    }
}

} // verus!

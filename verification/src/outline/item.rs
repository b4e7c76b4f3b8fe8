//! Outline items (bookmarks) and the links between them.

use vstd::prelude::*;
use crate::bytes::lit;
use crate::cos::{CosDictionary, CosName, CosObject, CosValue, ObjectId, dict_lookup, string_entry};
use crate::document::{ObjectStore, store_find};

verus! {

/// One bookmark: its id, its dictionary and the store its links point into.
#[derive(Debug, Clone, Copy)]
pub struct OutlineItem<'a> {
    pub id: ObjectId,
    pub dict: &'a CosDictionary,
    pub store: &'a ObjectStore,
}

/// The item a link entry of `d` names: a reference to a stored dictionary.
pub open spec fn linked(store: Seq<(ObjectId, CosValue)>, d: Seq<(Seq<u8>, CosValue)>, key: Seq<u8>)
    -> Option<(ObjectId, Seq<(Seq<u8>, CosValue)>)>
{
    match dict_lookup(d, key) {
        Some(CosValue::Ref(n, g)) => {
            let id = ObjectId { object_number: n, generation: g };
            match store_find(store, id) {
                Some(CosValue::Dict(x)) => Some((id, x)),
                _ => None,
            }
        },
        _ => None,
    }
}

/// The ids of a sibling chain: an item, then its `/Next` links, at most `n`.
pub open spec fn sibling_chain(
    store: Seq<(ObjectId, CosValue)>,
    cur: Option<(ObjectId, Seq<(Seq<u8>, CosValue)>)>,
    n: nat,
) -> Seq<ObjectId>
    decreases n,
{
    match cur {
        None => Seq::empty(),
        Some(p) => if n == 0 {
            Seq::empty()
        } else {
            seq![p.0] + sibling_chain(store, linked(store, p.1, lit("Next")), (n - 1) as nat)
        },
    }
}

/// The ids under an item, depth first: each child, then its own subtree,
/// then the next child. At most `fuel` links are followed along any path.
pub open spec fn subtree(store: Seq<(ObjectId, CosValue)>, d: Seq<(Seq<u8>, CosValue)>, fuel: nat) -> Seq<ObjectId>
    decreases fuel, 1nat,
{
    children(store, linked(store, d, lit("First")), fuel)
}

/// A run of siblings, each followed by its subtree.
pub open spec fn children(
    store: Seq<(ObjectId, CosValue)>,
    cur: Option<(ObjectId, Seq<(Seq<u8>, CosValue)>)>,
    fuel: nat,
) -> Seq<ObjectId>
    decreases fuel, 0nat,
{
    match cur {
        None => Seq::empty(),
        Some(p) => if fuel == 0 {
            Seq::empty()
        } else {
            seq![p.0] + subtree(store, p.1, (fuel - 1) as nat)
                + children(store, linked(store, p.1, lit("Next")), (fuel - 1) as nat)
        },
    }
}

pub open spec fn item_ids(v: Seq<OutlineItem>) -> Seq<ObjectId> {
    Seq::new(v.len(), |k: int| v[k].id)
}

/// The item a link entry of `dict` names.
pub fn link<'a>(dict: &'a CosDictionary, store: &'a ObjectStore, key: &str) -> (r: Option<OutlineItem<'a>>)
    ensures
        match linked(store@, dict@, lit(key)) {
            Some(p) => r is Some && r->Some_0.id == p.0 && r->Some_0.dict@ == p.1 && r->Some_0.store == store,
            None => r is None,
        },
{
    let id = match dict.get(&CosName::named(key)) {
        Some(CosObject::Reference(id)) => *id,
        _ => return None,
    };
    match store.get(&id) {
        Some(CosObject::Dictionary(d)) => Some(OutlineItem { id, dict: d, store }),
        _ => None,
    }
}

/// Collects `first` and its `/Next` siblings, at most `n` items.
pub fn chain_from<'a>(first: Option<OutlineItem<'a>>, store: &'a ObjectStore, n: usize) -> (r: Vec<OutlineItem<'a>>)
    requires first matches Some(it) ==> it.store == store && store_find(store@, it.id) == Some(CosValue::Dict(it.dict@)),
    ensures
        item_ids(r@) == sibling_chain(store@, match first { Some(it) => Some((it.id, it.dict@)), None => None }, n as nat),
        forall|k: int| 0 <= k < r@.len() ==> (#[trigger] r@[k]).store == store
            && store_find(store@, r@[k].id) == Some(CosValue::Dict(r@[k].dict@)),
{
    let ghost target = sibling_chain(store@, match first { Some(it) => Some((it.id, it.dict@)), None => None }, n as nat);
    let mut out: Vec<OutlineItem<'a>> = Vec::new();
    let mut cur = first;
    let mut m = n;
    let mut go = true;
    proof { assert(item_ids(out@) + target =~= target); }
    while go
        invariant
            m <= n,
            go ==> item_ids(out@) + sibling_chain(store@, match cur { Some(it) => Some((it.id, it.dict@)), None => None }, m as nat) == target,
            !go ==> item_ids(out@) == target,
            cur matches Some(it) ==> it.store == store && store_find(store@, it.id) == Some(CosValue::Dict(it.dict@)),
            forall|k: int| 0 <= k < out@.len() ==> (#[trigger] out@[k]).store == store
                && store_find(store@, out@[k].id) == Some(CosValue::Dict(out@[k].dict@)),
        decreases 2 * m + (if go { 1int } else { 0 }),
    {
        match cur {
            Some(it) => {
                if m == 0 {
                    proof { assert(item_ids(out@) + Seq::<ObjectId>::empty() =~= item_ids(out@)); }
                    go = false;
                } else {
                    let ghost before = item_ids(out@);
                    out.push(it);
                    let next = link(it.dict, store, "Next");
                    proof {
                        let nv = match next { Some(x) => Some((x.id, x.dict@)), None => None };
                        assert(nv == linked(store@, it.dict@, lit("Next")));
                        assert(item_ids(out@) + sibling_chain(store@, nv, (m - 1) as nat)
                            =~= before + sibling_chain(store@, Some((it.id, it.dict@)), m as nat));
                    }
                    cur = next;
                    m = m - 1;
                    if cur.is_none() {
                        proof { assert(item_ids(out@) + Seq::<ObjectId>::empty() =~= item_ids(out@)); }
                    }
                }
            }
            None => {
                proof { assert(item_ids(out@) + Seq::<ObjectId>::empty() =~= item_ids(out@)); }
                go = false;
            }
        }
    }
    out
}

/// Appends the subtree under `dict` (depth first) to `out`.
fn collect_subtree<'a>(dict: &'a CosDictionary, store: &'a ObjectStore, fuel: usize, out: &mut Vec<OutlineItem<'a>>)
    ensures item_ids(final(out)@) == item_ids(old(out)@) + subtree(store@, dict@, fuel as nat),
    decreases fuel, 1nat,
{
    let ghost start = item_ids(out@);
    let ghost target = start + subtree(store@, dict@, fuel as nat);
    let mut cur = link(dict, store, "First");
    let mut f = fuel;
    let mut go = true;
    proof {
        let cv = match cur { Some(it) => Some((it.id, it.dict@)), None => None };
        assert(item_ids(out@) + children(store@, cv, f as nat) =~= target);
    }
    while go
        invariant
            f <= fuel,
            go ==> item_ids(out@) + children(store@, match cur { Some(it) => Some((it.id, it.dict@)), None => None }, f as nat) == target,
            !go ==> item_ids(out@) == target,
        decreases 2 * f + (if go { 1int } else { 0 }),
    {
        match cur {
            Some(it) => {
                if f == 0 {
                    proof { assert(item_ids(out@) + Seq::<ObjectId>::empty() =~= item_ids(out@)); }
                    go = false;
                } else {
                    let ghost before = item_ids(out@);
                    out.push(it);
                    proof { assert(item_ids(out@) =~= before.push(it.id)); }
                    collect_subtree(it.dict, store, f - 1, out);
                    let next = link(it.dict, store, "Next");
                    proof {
                        let nv = match next { Some(x) => Some((x.id, x.dict@)), None => None };
                        assert(nv == linked(store@, it.dict@, lit("Next")));
                        assert(item_ids(out@) + children(store@, nv, (f - 1) as nat)
                            =~= before + children(store@, Some((it.id, it.dict@)), f as nat));
                    }
                    cur = next;
                    f = f - 1;
                    if cur.is_none() {
                        proof { assert(item_ids(out@) + Seq::<ObjectId>::empty() =~= item_ids(out@)); }
                    }
                }
            }
            None => {
                proof { assert(item_ids(out@) + Seq::<ObjectId>::empty() =~= item_ids(out@)); }
                go = false;
            }
        }
    }
}

impl<'a> OutlineItem<'a> {
    pub fn new(id: ObjectId, dict: &'a CosDictionary, store: &'a ObjectStore) -> (r: OutlineItem<'a>)
        ensures r.id == id, r.dict == dict, r.store == store,
    {
        OutlineItem { id, dict, store }
    }

    /// The `/Title` text (empty when missing).
    pub fn title(&self) -> (r: String)
        ensures r@ == string_entry(self.dict@, lit("Title")),
    {
        self.dict.text_entry("Title")
    }

    /// Open when `/Count` is positive.
    pub fn is_open(&self) -> (r: bool)
        ensures r == (match dict_lookup(self.dict@, lit("Count")) {
            Some(CosValue::Integer(c)) => (c as i64) > 0,
            _ => false,
        }),
    {
        match self.dict.get_int(&CosName::count()) {
            Some(c) => c > 0,
            None => false,
        }
    }

    /// The raw `/Count` (0 when missing).
    pub fn count(&self) -> (r: i64)
        ensures r == (match dict_lookup(self.dict@, lit("Count")) {
            Some(CosValue::Integer(c)) => c as i64,
            _ => 0,
        }),
    {
        match self.dict.get_int(&CosName::count()) {
            Some(c) => c,
            None => 0,
        }
    }

    /// The first child (`/First`).
    pub fn first_child(&self) -> (r: Option<OutlineItem<'a>>)
        ensures
            match linked(self.store@, self.dict@, lit("First")) {
                Some(p) => r is Some && r->Some_0.id == p.0 && r->Some_0.dict@ == p.1 && r->Some_0.store == self.store,
                None => r is None,
            },
    {
        link(self.dict, self.store, "First")
    }

    /// The last child (`/Last`).
    pub fn last_child(&self) -> (r: Option<OutlineItem<'a>>)
        ensures
            match linked(self.store@, self.dict@, lit("Last")) {
                Some(p) => r is Some && r->Some_0.id == p.0 && r->Some_0.dict@ == p.1 && r->Some_0.store == self.store,
                None => r is None,
            },
    {
        link(self.dict, self.store, "Last")
    }

    /// The next sibling (`/Next`).
    pub fn next(&self) -> (r: Option<OutlineItem<'a>>)
        ensures
            match linked(self.store@, self.dict@, lit("Next")) {
                Some(p) => r is Some && r->Some_0.id == p.0 && r->Some_0.dict@ == p.1 && r->Some_0.store == self.store,
                None => r is None,
            },
    {
        link(self.dict, self.store, "Next")
    }

    /// The previous sibling (`/Prev`).
    pub fn prev(&self) -> (r: Option<OutlineItem<'a>>)
        ensures
            match linked(self.store@, self.dict@, lit("Prev")) {
                Some(p) => r is Some && r->Some_0.id == p.0 && r->Some_0.dict@ == p.1 && r->Some_0.store == self.store,
                None => r is None,
            },
    {
        link(self.dict, self.store, "Prev")
    }

    /// The parent (`/Parent`).
    pub fn parent(&self) -> (r: Option<OutlineItem<'a>>)
        ensures
            match linked(self.store@, self.dict@, lit("Parent")) {
                Some(p) => r is Some && r->Some_0.id == p.0 && r->Some_0.dict@ == p.1 && r->Some_0.store == self.store,
                None => r is None,
            },
    {
        link(self.dict, self.store, "Parent")
    }

    /// Every item under this one, depth first (following at most as many
    /// links along a path as there are stored objects).
    pub fn descendants(&self) -> (r: Vec<OutlineItem<'a>>)
        ensures item_ids(r@) == subtree(self.store@, self.dict@, self.store@.len()),
    {
        let mut out: Vec<OutlineItem<'a>> = Vec::new();
        proof { assert(item_ids(out@) =~= Seq::<ObjectId>::empty()); }
        collect_subtree(self.dict, self.store, self.store.len(), &mut out);
        proof { assert(item_ids(out@) =~= subtree(self.store@, self.dict@, self.store@.len())); }
        out
    }

    /// The item's dictionary.
    pub fn dictionary(&self) -> (r: &CosDictionary)
        ensures r == self.dict,
    {
        self.dict
    }
}

} // verus!

//! Widget annotations: where a field appears on a page.

use vstd::prelude::*;
use crate::cos::{CosDictionary, ObjectId};
use crate::document::ObjectStore;

verus! {

/// A widget annotation: its id and dictionary, and the store its references
/// resolve in.
#[derive(Debug, Clone, Copy)]
pub struct PdWidget<'a> {
    pub id: ObjectId,
    pub dict: &'a CosDictionary,
    pub store: &'a ObjectStore,
}

impl<'a> PdWidget<'a> {
    pub fn new(id: ObjectId, dict: &'a CosDictionary, store: &'a ObjectStore) -> (r: Self)
        ensures r.id == id, r.dict == dict, r.store == store,
    {
        PdWidget { id, dict, store }
    }
}

} // verus!

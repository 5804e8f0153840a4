//! The store of layers: tables under the identifiers of their layers.
//!
//! A store is an ordinary value. Whoever shares one between threads
//! guards it with a lock, holds the lock for one call of `put`, `get` or
//! `delete` and no longer, and sorts the copy that `get` hands out, not the
//! table in the store. An exclusive borrow is what makes each call atomic.

use vstd::prelude::*;
use vstd::hash_map::StringHashMap;
use crate::error::QueryError;
use crate::table::{Table, TableView};

verus! {

/// The layers of one process, each a table under its identifier.
pub struct LayerStore {
    layers: StringHashMap<Table>,
}

impl View for LayerStore {
    type V = Map<Seq<char>, TableView>;

    closed spec fn view(&self) -> Map<Seq<char>, TableView> {
        self.layers@.map_values(|table: Table| table@)
    }
}

impl LayerStore {
    /// A store without layers.
    pub fn new() -> (store: LayerStore)
        ensures
            store@ == Map::<Seq<char>, TableView>::empty(),
    {
        let store = LayerStore { layers: StringHashMap::new() };
        assert(store@ =~= Map::<Seq<char>, TableView>::empty());
        store
    }

    /// Puts `table` under `id`, in place of the table that was there, if
    /// any. The other layers stay as they are.
    pub fn put(&mut self, id: String, table: Table)
        ensures
            final(self)@ == old(self)@.insert(id@, table@),
    {
        self.layers.insert(id, table);
        assert(self@ =~= old(self)@.insert(id@, table@));
    }

    /// Tells whether the store holds a layer under `id`.
    pub fn contains(&self, id: &str) -> (found: bool)
        ensures
            found == self@.contains_key(id@),
    {
        self.layers.contains_key(id)
    }

    /// The table under `id`, as it stands in the store.
    pub fn find(&self, id: &str) -> (found: Option<&Table>)
        ensures
            found is Some <==> self@.contains_key(id@),
            found matches Some(table) ==> table@ == self@[id@],
    {
        self.layers.get(id)
    }

    /// A copy of the table under `id`; `NotFound` if there is none.
    pub fn get(&self, id: &str) -> (result: Result<Table, QueryError>)
        ensures
            result is Ok <==> self@.contains_key(id@),
            result matches Ok(table) ==> table@ == self@[id@],
            result matches Err(e) ==> e == QueryError::NotFound,
    {
        match self.find(id) {
            Some(table) => Ok(table.clone()),
            None => Err(QueryError::NotFound),
        }
    }

    /// Removes the layer under `id`, if there is one. The other layers
    /// stay as they are.
    pub fn delete(&mut self, id: &str)
        ensures
            final(self)@ == old(self)@.remove(id@),
    {
        self.layers.remove(id);
        assert(self@ =~= old(self)@.remove(id@));
    }
}

/// Removing a layer twice leaves the store as removing it once does: the
/// second removal changes nothing.
pub proof fn lemma_delete_twice(layers: Map<Seq<char>, TableView>, id: Seq<char>)
    ensures
        layers.remove(id).remove(id) == layers.remove(id),
        !layers.remove(id).contains_key(id),
{
    assert(layers.remove(id).remove(id) =~= layers.remove(id));
}

} // verus!

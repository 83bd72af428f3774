//! A table of rows in memory that tells an observer of every change.

use std::collections::BTreeMap;
use vstd::prelude::*;

use crate::json::JSON;

verus! {

broadcast use vstd::std_specs::btree::group_btree_axioms;

/// A row: the entries of an object, by ascending key.
pub type JSONRow = Vec<(String, JSON)>;

/// What is told of every change to a table: the key, the row that was
/// stored under it before, and the row that is stored under it now.
pub trait TableObserver {
    fn update(&mut self, key: i64, old: Option<&JSONRow>, new: Option<&JSONRow>);
}

/// A table of rows in memory, with its observer.
pub struct MemTable<O: TableObserver> {
    map: BTreeMap<i64, JSONRow>,
    obs: O,
}

/// A reference to what an option holds.
pub fn opt_ref<'a, T>(opt: &'a Option<T>) -> (r: Option<&'a T>)
    ensures
        match r {
            Some(t) => *opt == Some(*t),
            None => *opt is None,
        },
{
    match opt {
        Some(t) => Some(t),
        None => None,
    }
}

impl<O: TableObserver> MemTable<O> {
    /// The rows of the table.
    pub closed spec fn rows(&self) -> Map<i64, JSONRow> {
        self.map@
    }

    /// An empty table with its observer.
    pub fn new(obs: O) -> (t: MemTable<O>)
        ensures
            t.rows() == Map::<i64, JSONRow>::empty(),
    {
        MemTable { map: BTreeMap::new(), obs }
    }

    /// The row stored under `key`, if any.
    pub fn get(&self, key: &i64) -> (r: Option<&JSONRow>)
        ensures
            match r {
                Some(row) => self.rows().contains_key(*key) && self.rows()[*key] == *row,
                None => !self.rows().contains_key(*key),
            },
    {
        self.map.get(key)
    }

    /// Stores `value` under `key`, tells the observer, and hands back the
    /// row that was stored there before.
    pub fn insert(&mut self, key: i64, value: JSONRow) -> (r: Option<JSONRow>)
        ensures
            final(self).rows() == old(self).rows().insert(key, value),
            match r {
                Some(row) => old(self).rows().contains_key(key) && old(self).rows()[key] == row,
                None => !old(self).rows().contains_key(key),
            },
    {
        let old = self.map.insert(key, value);
        let new = self.map.get(&key);
        self.obs.update(key, opt_ref(&old), new);
        old
    }
}

} // verus!

//! The sorted in-memory index of a table: a map from keys to byte strings.

use std::collections::BTreeMap;
use vstd::prelude::*;

verus! {

broadcast use vstd::std_specs::btree::group_btree_axioms;

/// The sorted index: each key with the bytes stored under it.
pub type DataMap = BTreeMap<i64, Vec<u8>>;

/// The model of an index: each key with the byte sequence stored under it.
pub open spec fn map_model(m: Map<i64, Vec<u8>>) -> Map<i64, Seq<u8>> {
    m.map_values(|v: Vec<u8>| v@)
}

/// Stores `value` under `key` and hands back what was stored there before.
pub fn index_insert(data: &mut DataMap, key: i64, value: Vec<u8>) -> (prev: Option<Vec<u8>>)
    ensures
        map_model(final(data)@) == map_model(old(data)@).insert(key, value@),
        match prev {
            Some(v) => map_model(old(data)@).contains_key(key) && map_model(old(data)@)[key] == v@,
            None => !map_model(old(data)@).contains_key(key),
        },
{
    let prev = data.insert(key, value);
    proof {
        assert(map_model(data@) =~= map_model(old(data)@).insert(key, value@));
        assert(map_model(old(data)@).dom() =~= old(data)@.dom());
    }
    prev
}

/// Removes the entry under `key` and hands back what was stored there.
pub fn index_remove(data: &mut DataMap, key: i64) -> (prev: Option<Vec<u8>>)
    ensures
        map_model(final(data)@) == map_model(old(data)@).remove(key),
        match prev {
            Some(v) => map_model(old(data)@).contains_key(key) && map_model(old(data)@)[key] == v@,
            None => !map_model(old(data)@).contains_key(key),
        },
{
    let prev = data.remove(&key);
    proof {
        assert(map_model(data@) =~= map_model(old(data)@).remove(key));
        assert(map_model(old(data)@).dom() =~= old(data)@.dom());
    }
    prev
}

/// The bytes stored under `key`, if any.
pub fn index_get<'a>(data: &'a DataMap, key: i64) -> (found: Option<&'a Vec<u8>>)
    ensures
        match found {
            Some(v) => map_model(data@).contains_key(key) && map_model(data@)[key] == v@,
            None => !map_model(data@).contains_key(key),
        },
{
    let found = data.get(&key);
    proof {
        assert(map_model(data@).dom() =~= data@.dom());
    }
    found
}

} // verus!

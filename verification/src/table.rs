//! The table engine: a sorted index in memory over an append-only log of
//! records.
//!
//! The table holds its log as bytes. Whoever keeps the log on disk hands the
//! bytes in when the table is opened and writes out what each operation
//! appends. Every operation keeps the log and the index in step: replaying
//! the log from an empty index gives the index.

use vstd::prelude::*;
use vstd::slice::slice_to_vec;
use vstd::std_specs::iter::IteratorSpec;

use crate::decode::{map_decoding, Cursor, Decode, DecodeError, DecodeStats};
use crate::encode::{
    encode, encode_bytes, is_greatest_key, keys_ascend, lemma_walk_sorted,
    lists_entries, map_encoding, record_encoding, tombstone_encoding, walk_model, Encode,
};
use crate::index::{index_get, index_insert, index_remove, map_model, DataMap};
use crate::stream::{
    lemma_map_decoding_bound, lemma_replay_append, lemma_replay_compacted, lemma_replay_nothing,
    lemma_replay_record, lemma_replay_tombstone, values_fit,
};

verus! {

broadcast use vstd::std_specs::btree::group_btree_axioms;

/// Why a table operation failed.
#[derive(Debug, Clone, Copy, PartialEq, Eq, Structural)]
pub enum TableError {
    /// The log does not decode.
    DecodeError(DecodeError),
    /// The table was opened for reading only.
    NotWritable,
}

/// A table: a sorted index and, when it is writable, the log behind it.
pub struct Table {
    file: Option<Vec<u8>>,
    map: DataMap,
    stats: DecodeStats,
}

impl Table {
    /// The index: each key with the bytes stored under it.
    pub closed spec fn index(&self) -> Map<i64, Seq<u8>> {
        map_model(self.map@)
    }

    /// The log, when the table is writable.
    pub closed spec fn log(&self) -> Option<Seq<u8>> {
        match self.file {
            Some(bytes) => Some(bytes@),
            None => None,
        }
    }

    /// What loading the table pulled from its log and counted as wasted.
    pub closed spec fn load_stats(&self) -> DecodeStats {
        self.stats
    }

    /// Whether the table is as every operation leaves it: the index is
    /// finite, each value is short enough to be encoded, and replaying the
    /// log gives the index.
    pub open spec fn wf(&self) -> bool {
        &&& self.index().dom().finite()
        &&& values_fit(self.index())
        &&& self.log() matches Some(log) ==> map_decoding(log).result == Ok::<
            Map<i64, Seq<u8>>,
            DecodeError,
        >(self.index())
    }

    /// Whether the table can be changed.
    pub open spec fn writable(&self) -> bool {
        self.log() is Some
    }

    /// Whether `loaded` is what opening a table on `bytes` gives.
    pub open spec fn opened(bytes: Seq<u8>, loaded: Result<Table, TableError>) -> bool {
        match loaded {
            Ok(table) => {
                &&& table.wf()
                &&& map_decoding(bytes).result == Ok::<Map<i64, Seq<u8>>, DecodeError>(
                    table.index(),
                )
                &&& table.load_stats().read() == map_decoding(bytes).read
                &&& table.load_stats().discarded() == map_decoding(bytes).discarded
            },
            Err(TableError::DecodeError(e)) => map_decoding(bytes).result == Err::<
                Map<i64, Seq<u8>>,
                DecodeError,
            >(e),
            Err(TableError::NotWritable) => false,
        }
    }

    fn load(bytes: &[u8]) -> (r: Result<(DataMap, DecodeStats), TableError>)
        requires
            2 * bytes@.len() <= usize::MAX,
        ensures
            match r {
                Ok((map, stats)) => {
                    &&& map_decoding(bytes@).result == Ok::<Map<i64, Seq<u8>>, DecodeError>(
                        map_model(map@),
                    )
                    &&& stats.read() == map_decoding(bytes@).read
                    &&& stats.discarded() == map_decoding(bytes@).discarded
                },
                Err(TableError::DecodeError(e)) => map_decoding(bytes@).result == Err::<
                    Map<i64, Seq<u8>>,
                    DecodeError,
                >(e),
                Err(TableError::NotWritable) => false,
            },
    {
        let mut src = Cursor::new(bytes);
        let mut stats = DecodeStats::new();
        proof {
            lemma_map_decoding_bound(bytes@);
        }
        match DataMap::decode_stats(&mut src, &mut stats) {
            Err(e) => Err(TableError::DecodeError(e)),
            Ok(map) => Ok((map, stats)),
        }
    }

    /// Opens a table for reading on the bytes of its log.
    ///
    /// The log is replayed into the index; the table keeps no log and
    /// cannot be changed.
    pub fn open(bytes: &[u8]) -> (r: Result<Table, TableError>)
        requires
            2 * bytes@.len() <= usize::MAX,
        ensures
            Table::opened(bytes@, r),
            r matches Ok(table) ==> !table.writable(),
    {
        match Table::load(bytes) {
            Err(e) => Err(e),
            Ok((map, stats)) => {
                proof {
                    lemma_values_fit(map);
                }
                Ok(Table { file: None, map, stats })
            },
        }
    }

    /// Opens a table for reading and writing on the bytes of its log, which
    /// it keeps. An empty log gives an empty table.
    pub fn open_rw(bytes: Vec<u8>) -> (r: Result<Table, TableError>)
        requires
            2 * bytes@.len() <= usize::MAX,
        ensures
            Table::opened(bytes@, r),
            r matches Ok(table) ==> table.log() == Some(bytes@),
    {
        match Table::load(bytes.as_slice()) {
            Err(e) => Err(e),
            Ok((map, stats)) => {
                proof {
                    lemma_values_fit(map);
                }
                Ok(Table { file: Some(bytes), map, stats })
            },
        }
    }

    /// What loading the table pulled from its log and counted as wasted.
    pub fn stats(&self) -> (stats: &DecodeStats)
        ensures
            *stats == self.load_stats(),
    {
        &self.stats
    }

    /// The bytes of the log, when the table is writable.
    pub fn file(&self) -> (bytes: Option<&Vec<u8>>)
        ensures
            match bytes {
                Some(b) => self.log() == Some(b@),
                None => self.log() is None,
            },
    {
        self.file.as_ref()
    }

    /// The bytes stored under `key`, if any.
    pub fn get(&self, key: &i64) -> (found: Option<&Vec<u8>>)
        ensures
            match found {
                Some(v) => self.index().contains_key(*key) && self.index()[*key] == v@,
                None => !self.index().contains_key(*key),
            },
    {
        index_get(&self.map, *key)
    }

    /// Stores `value` under `key`: appends the record to the log, then
    /// updates the index. Hands back the bytes that were stored under `key`
    /// before. A table opened for reading only is left as it is.
    pub fn insert(&mut self, key: i64, value: Vec<u8>) -> (r: Result<Option<Vec<u8>>, TableError>)
        requires
            old(self).wf(),
        ensures
            final(self).wf(),
            final(self).load_stats() == old(self).load_stats(),
            match old(self).log() {
                None => {
                    &&& r == Err::<Option<Vec<u8>>, TableError>(TableError::NotWritable)
                    &&& final(self).index() == old(self).index()
                    &&& final(self).log() is None
                },
                Some(log) => {
                    &&& final(self).log() == Some(log + record_encoding(key, value@))
                    &&& final(self).index() == old(self).index().insert(key, value@)
                    &&& match r {
                        Ok(Some(prev)) => old(self).index().contains_key(key) && old(
                            self,
                        ).index()[key] == prev@,
                        Ok(None) => !old(self).index().contains_key(key),
                        Err(_) => false,
                    }
                },
            },
    {
        let ghost before = self.index();
        match self.file.as_mut() {
            None => {
                return Err(TableError::NotWritable);
            },
            Some(log) => {
                let ghost bytes = log@;
                key.encode(log);
                encode_bytes(value.as_slice(), log);
                proof {
                    let record = record_encoding(key, value@);
                    assert(log@ =~= bytes + record);
                    assert(value@.len() == value.len());
                    lemma_replay_append(Map::empty(), bytes, record, before);
                    lemma_replay_record(before, key, value@, Seq::empty());
                    lemma_replay_nothing(before.insert(key, value@));
                    assert(record + Seq::<u8>::empty() =~= record);
                }
            },
        }
        let prev = index_insert(&mut self.map, key, value);
        proof {
            lemma_values_fit(self.map);
        }
        Ok(prev)
    }

    /// Removes `key`: appends the removing record to the log, then updates
    /// the index. Hands back the bytes that were stored under `key`. A
    /// table opened for reading only is left as it is.
    pub fn remove(&mut self, key: &i64) -> (r: Result<Option<Vec<u8>>, TableError>)
        requires
            old(self).wf(),
        ensures
            final(self).wf(),
            final(self).load_stats() == old(self).load_stats(),
            match old(self).log() {
                None => {
                    &&& r == Err::<Option<Vec<u8>>, TableError>(TableError::NotWritable)
                    &&& final(self).index() == old(self).index()
                    &&& final(self).log() is None
                },
                Some(log) => {
                    &&& final(self).log() == Some(log + tombstone_encoding(*key))
                    &&& final(self).index() == old(self).index().remove(*key)
                    &&& match r {
                        Ok(Some(prev)) => old(self).index().contains_key(*key) && old(
                            self,
                        ).index()[*key] == prev@,
                        Ok(None) => !old(self).index().contains_key(*key),
                        Err(_) => false,
                    }
                },
            },
    {
        let ghost before = self.index();
        match self.file.as_mut() {
            None => {
                return Err(TableError::NotWritable);
            },
            Some(log) => {
                let ghost bytes = log@;
                let nothing: Option<u64> = None;
                key.encode(log);
                nothing.encode(log);
                proof {
                    let record = tombstone_encoding(*key);
                    assert(log@ =~= bytes + record);
                    lemma_replay_append(Map::empty(), bytes, record, before);
                    lemma_replay_tombstone(before, *key, Seq::empty());
                    lemma_replay_nothing(before.remove(*key));
                    assert(record + Seq::<u8>::empty() =~= record);
                }
            },
        }
        let prev = index_remove(&mut self.map, *key);
        proof {
            lemma_values_fit(self.map);
        }
        Ok(prev)
    }

    /// Rewrites the log so that it holds the index and nothing else: one
    /// record for each entry, in ascending key order. The index stays as it
    /// is. A table opened for reading only is left as it is.
    pub fn compact(&mut self) -> (r: Result<(), TableError>)
        requires
            old(self).wf(),
        ensures
            final(self).wf(),
            final(self).index() == old(self).index(),
            final(self).load_stats() == old(self).load_stats(),
            match old(self).log() {
                None => {
                    &&& r == Err::<(), TableError>(TableError::NotWritable)
                    &&& final(self).log() is None
                },
                Some(_) => {
                    &&& r is Ok
                    &&& final(self).log() == Some(map_encoding(old(self).index()))
                    &&& map_decoding(map_encoding(old(self).index())).discarded == 0
                },
            },
    {
        if self.file.is_none() {
            return Err(TableError::NotWritable);
        }
        proof {
            lemma_replay_compacted(self.index());
        }
        self.file = Some(encode(&self.map));
        Ok(())
    }

    /// The index itself, for those who walk it.
    pub fn as_map(&self) -> (map: &DataMap)
        ensures
            map_model(map@) == self.index(),
    {
        &self.map
    }

    /// The greatest key of the table, if it holds any entry.
    pub fn max_key(&self) -> (r: Option<i64>)
        ensures
            match r {
                Some(k) => is_greatest_key(self.index(), k),
                None => self.index().dom().len() == 0,
            },
    {
        let mut last: Option<i64> = None;
        for kv in it: self.map.iter()
            invariant
                it.seq() == self.map.iter().remaining(),
                vstd::std_specs::btree::increasing_seq(
                    it.seq().map_values(|kv: (&i64, &Vec<u8>)| *kv.0),
                ),
                match last {
                    Some(k) => it.index() > 0 && k == walk_model(it.seq())[it.index() - 1].0,
                    None => it.index() == 0,
                },
        {
            last = Some(*kv.0);
        }
        proof {
            let walk = self.map.iter().remaining();
            let s = walk_model(walk);
            lemma_walk_sorted(&self.map, walk);
            crate::encode::lemma_map_encoding_sorted(self.index(), s);
            match last {
                Some(k) => {
                    assert(self.index().contains_key(s[s.len() - 1].0));
                    assert forall|j: i64| self.index().dom().contains(j) implies j <= k by {
                        assert(self.index().contains_key(j));
                        let i = choose|i: int| 0 <= i < s.len() && s[i].0 == j;
                        assert(s[i].0 <= s[s.len() - 1].0);
                    }
                },
                None => {},
            }
        }
        last
    }

    /// The entries of the table, in ascending key order.
    pub fn items(&self) -> (entries: Vec<(i64, Vec<u8>)>)
        ensures
            keys_ascend(entries_model(entries@)),
            lists_entries(entries_model(entries@), self.index()),
    {
        let mut entries: Vec<(i64, Vec<u8>)> = Vec::new();
        for kv in it: self.map.iter()
            invariant
                it.seq() == self.map.iter().remaining(),
                vstd::std_specs::btree::increasing_seq(
                    it.seq().map_values(|kv: (&i64, &Vec<u8>)| *kv.0),
                ),
                entries_model(entries@) == walk_model(it.seq()).take(it.index()),
        {
            let ghost before = entries_model(entries@);
            let value = slice_to_vec(kv.1.as_slice());
            entries.push((*kv.0, value));
            proof {
                let after = walk_model(it.seq()).take(it.index() + 1);
                assert(after.drop_last() =~= before);
                assert(after.last() == (*kv.0, kv.1@));
                assert(entries_model(entries@) =~= before.push((*kv.0, value@)));
                assert(after =~= before.push(after.last()));
            }
        }
        proof {
            let walk = self.map.iter().remaining();
            lemma_walk_sorted(&self.map, walk);
            let s = walk_model(walk);
            assert(s.take(s.len() as int) =~= s);
        }
        entries
    }
}

/// Closing a writable table and opening it again on the bytes of its log
/// gives a table with the same index.
pub proof fn lemma_reopen(table: Table, reopened: Result<Table, TableError>)
    requires
        table.wf(),
        table.log() matches Some(log) && Table::opened(log, reopened),
    ensures
        reopened matches Ok(again) && again.index() == table.index(),
{
}

/// Opening a table again on a log that was compacted finds nothing wasted,
/// and compacting it once more would write the same log.
pub proof fn lemma_compact_idempotent(table: Table, reopened: Result<Table, TableError>)
    requires
        table.wf(),
        table.log() == Some(map_encoding(table.index())),
        Table::opened(map_encoding(table.index()), reopened),
    ensures
        reopened matches Ok(again) && again.index() == table.index()
            && again.load_stats().discarded() == 0 && map_encoding(again.index())
            == map_encoding(table.index()),
{
    lemma_replay_compacted(table.index());
}

/// The entries of a list as plain values.
pub open spec fn entries_model(entries: Seq<(i64, Vec<u8>)>) -> Seq<(i64, Seq<u8>)> {
    entries.map_values(|kv: (i64, Vec<u8>)| (kv.0, kv.1@))
}

/// Every value that an index holds in memory is short enough to be encoded.
proof fn lemma_values_fit(map: DataMap)
    ensures
        values_fit(map_model(map@)),
        map_model(map@).dom().finite(),
{
    assert(map_model(map@).dom() =~= map@.dom());
    assert forall|k: i64| map_model(map@).contains_key(k) implies (#[trigger] map_model(
        map@,
    )[k]).len() <= u64::MAX by {
        assert(map@[k]@.len() == map@[k].len());
    }
}

} // verus!

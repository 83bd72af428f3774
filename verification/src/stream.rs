//! Laws of the key-value stream: what replaying a log that grows record by
//! record makes of it, and what it makes of a compacted log.

use vstd::prelude::*;

use crate::decode::{
    and_then, bytes_decoding, first_record, i64_decoding, lemma_first_record_read, map_decoding,
    replay, superseded, u64_decoding, DecodeError, Decoding, Step,
};
use crate::encode::{
    bytes_encoding, greatest_key, i64_encoding, is_greatest_key, lemma_greatest_key_exists,
    lemma_i64_encoding_len, lemma_u64_encoding_len, map_encoding, opt_u64_encoding,
    record_encoding, tombstone_encoding,
};
use crate::round_trip::{lemma_bytes_round_trip, lemma_i64_round_trip, yields};

verus! {

/// An unsigned integer, or the reserved tag, decodes the same whatever is
/// written after it.
pub proof fn lemma_u64_decoding_extends(a: Seq<u8>, b: Seq<u8>)
    requires
        u64_decoding(a).result is Ok || u64_decoding(a).result == Err::<u64, DecodeError>(
            DecodeError::Null,
        ),
    ensures
        u64_decoding(a + b) == u64_decoding(a),
{
    let s = a + b;
    assert(s[0] == a[0]);
    if a[0] == 0xFD {
        assert(s.subrange(1, 3) =~= a.subrange(1, 3));
    } else if a[0] == 0xFE {
        assert(s.subrange(1, 9) =~= a.subrange(1, 9));
    }
}

/// A signed integer decodes the same whatever is written after it.
pub proof fn lemma_i64_decoding_extends(a: Seq<u8>, b: Seq<u8>)
    requires
        i64_decoding(a).result is Ok,
    ensures
        i64_decoding(a + b) == i64_decoding(a),
{
    let s = a + b;
    assert(s[0] == a[0]);
    if a[0] == 0x81 {
        assert(s.subrange(1, 3) =~= a.subrange(1, 3));
    } else if a[0] == 0x80 {
        assert(s.subrange(1, 9) =~= a.subrange(1, 9));
    }
}

/// A byte string, or the reserved tag in its place, decodes the same
/// whatever is written after it.
pub proof fn lemma_bytes_decoding_extends(a: Seq<u8>, b: Seq<u8>)
    requires
        bytes_decoding(a).result is Ok || bytes_decoding(a).result == Err::<Seq<u8>, DecodeError>(
            DecodeError::Null,
        ),
    ensures
        bytes_decoding(a + b) == bytes_decoding(a),
{
    lemma_u64_decoding_extends(a, b);
    let head = u64_decoding(a);
    if head.result is Ok {
        let n = head.result->Ok_0;
        assert((a + b).skip(head.read as int) =~= a.skip(head.read as int) + b);
        assert((a.skip(head.read as int) + b).take(n as int) =~= a.skip(head.read as int).take(
            n as int,
        ));
    }
}

/// The head of a stream is the same record whatever is written after it.
pub proof fn lemma_first_record_extends(m: Map<i64, Seq<u8>>, a: Seq<u8>, b: Seq<u8>)
    requires
        first_record(m, a) is Apply,
    ensures
        first_record(m, a + b) == first_record(m, a),
        (a + b).skip(first_record(m, a)->Apply_read as int) == a.skip(
            first_record(m, a)->Apply_read as int,
        ) + b,
{
    let k = i64_decoding(a);
    lemma_i64_decoding_extends(a, b);
    let after_key = a.skip(k.read as int);
    assert((a + b).skip(k.read as int) =~= after_key + b);
    let v = bytes_decoding(after_key);
    lemma_bytes_decoding_extends(after_key, b);
    assert((a + b).skip((k.read + v.read) as int) =~= a.skip((k.read + v.read) as int) + b);
}

/// The head of a stream that begins with a record that stores `value` under
/// `key`: the entry is stored, and what it supersedes is wasted.
pub proof fn lemma_first_record_put(m: Map<i64, Seq<u8>>, key: i64, value: Seq<u8>, rest: Seq<u8>)
    requires
        value.len() <= u64::MAX,
    ensures
        first_record(m, record_encoding(key, value) + rest) == (Step::Apply {
            index: m.insert(key, value),
            read: record_encoding(key, value).len(),
            discarded: superseded(m, key, i64_encoding(key).len()),
        }),
        (record_encoding(key, value) + rest).skip(record_encoding(key, value).len() as int)
            == rest,
{
    let s = record_encoding(key, value) + rest;
    let after_key = bytes_encoding(value) + rest;
    assert(s =~= i64_encoding(key) + after_key);
    lemma_i64_round_trip(key, after_key);
    lemma_i64_encoding_len(key);
    let k = i64_encoding(key).len();
    assert(s.skip(k as int) =~= after_key);
    lemma_bytes_round_trip(value, rest);
    assert(s.skip(record_encoding(key, value).len() as int) =~= rest);
}

/// The head of a stream that begins with a record that removes `key`: the
/// entry is removed, and the record and what it supersedes are wasted.
pub proof fn lemma_first_record_delete(m: Map<i64, Seq<u8>>, key: i64, rest: Seq<u8>)
    ensures
        first_record(m, tombstone_encoding(key) + rest) == (Step::Apply {
            index: m.remove(key),
            read: tombstone_encoding(key).len(),
            discarded: tombstone_encoding(key).len() + superseded(
                m,
                key,
                i64_encoding(key).len(),
            ),
        }),
        (tombstone_encoding(key) + rest).skip(tombstone_encoding(key).len() as int) == rest,
{
    let s = tombstone_encoding(key) + rest;
    let after_key = opt_u64_encoding(None) + rest;
    assert(s =~= i64_encoding(key) + after_key);
    lemma_i64_round_trip(key, after_key);
    lemma_i64_encoding_len(key);
    let k = i64_encoding(key).len();
    assert(s.skip(k as int) =~= after_key);
    assert(after_key[0] == 0xFF);
    assert(s.skip(tombstone_encoding(key).len() as int) =~= rest);
}

/// Replaying a record that stores `value` under `key`, whatever follows it:
/// the entry is stored, what it supersedes is wasted, and the replay goes
/// on with what follows.
pub proof fn lemma_replay_record(m: Map<i64, Seq<u8>>, key: i64, value: Seq<u8>, rest: Seq<u8>)
    requires
        value.len() <= u64::MAX,
    ensures
        replay(m, record_encoding(key, value) + rest) == and_then(
            record_encoding(key, value).len(),
            superseded(m, key, i64_encoding(key).len()),
            replay(m.insert(key, value), rest),
        ),
{
    reveal(replay);
    lemma_first_record_put(m, key, value, rest);
}

/// Replaying a record that removes `key`, whatever follows it: the entry is
/// removed, the record and what it supersedes are wasted, and the replay
/// goes on with what follows.
pub proof fn lemma_replay_tombstone(m: Map<i64, Seq<u8>>, key: i64, rest: Seq<u8>)
    ensures
        replay(m, tombstone_encoding(key) + rest) == and_then(
            tombstone_encoding(key).len(),
            tombstone_encoding(key).len() + superseded(m, key, i64_encoding(key).len()),
            replay(m.remove(key), rest),
        ),
{
    reveal(replay);
    lemma_first_record_delete(m, key, rest);
}

/// A stream that replays to the end replays the same when more is written
/// after it: the replay of the longer stream is the replay of the first
/// part, followed by the replay of the addition over the index that the
/// first part gave.
pub proof fn lemma_replay_append(
    m: Map<i64, Seq<u8>>,
    a: Seq<u8>,
    b: Seq<u8>,
    m1: Map<i64, Seq<u8>>,
)
    requires
        replay(m, a).result == Ok::<Map<i64, Seq<u8>>, DecodeError>(m1),
    ensures
        replay(m, a).read == a.len(),
        replay(m, a + b) == and_then(a.len(), replay(m, a).discarded, replay(m1, b)),
    decreases a.len(),
{
    reveal(replay);
    lemma_first_record_read(m, a);
    match first_record(m, a) {
        Step::End => {
            assert(a + b =~= b);
        },
        Step::Fail { .. } => {},
        Step::Apply { index, read, discarded } => {
            lemma_first_record_extends(m, a, b);
            lemma_replay_append(index, a.skip(read as int), b, m1);
        },
    }
}

/// Replaying an empty stream leaves the index as it is.
pub proof fn lemma_replay_nothing(m: Map<i64, Seq<u8>>)
    ensures
        replay(m, Seq::empty()) == yields(m, 0),
{
    reveal(replay);
}

/// Whether every value of `m` is short enough for its length to be encoded.
pub open spec fn values_fit(m: Map<i64, Seq<u8>>) -> bool {
    forall|k: i64| m.contains_key(k) ==> (#[trigger] m[k]).len() <= u64::MAX
}

/// Replaying the encoding of an index gives that index back, pulls the
/// whole encoding and wastes nothing.
pub proof fn lemma_replay_compacted(m: Map<i64, Seq<u8>>)
    requires
        m.dom().finite(),
        values_fit(m),
    ensures
        map_decoding(map_encoding(m)) == yields(m, map_encoding(m).len()),
    decreases m.dom().len(),
{
    let nothing = Map::<i64, Seq<u8>>::empty();
    if m.dom().len() == 0 {
        lemma_replay_nothing(nothing);
        assert(m =~= nothing);
    } else {
        lemma_greatest_key_exists(m);
        let g = greatest_key(m);
        let rest = m.remove(g);
        let record = record_encoding(g, m[g]);
        assert(values_fit(rest)) by {
            assert forall|k: i64| rest.contains_key(k) implies (#[trigger] rest[k]).len()
                <= u64::MAX by {
                assert(m.contains_key(k));
                assert(rest[k] == m[k]);
            }
        }
        lemma_replay_compacted(rest);
        lemma_replay_append(nothing, map_encoding(rest), record, rest);
        lemma_replay_record(rest, g, m[g], Seq::empty());
        lemma_replay_nothing(rest.insert(g, m[g]));
        assert(record + Seq::<u8>::empty() =~= record);
        assert(rest.insert(g, m[g]) =~= m);
    }
}

/// Writing a record that stores `value` under `key` after a log that
/// replays to `m`, and then a record that removes `key`: the longer log
/// replays to `m` without `key`, and wastes, beyond what the first log
/// wasted and what the first record superseded, both records whole.
pub proof fn lemma_insert_then_remove(
    log: Seq<u8>,
    m: Map<i64, Seq<u8>>,
    key: i64,
    value: Seq<u8>,
)
    requires
        map_decoding(log).result == Ok::<Map<i64, Seq<u8>>, DecodeError>(m),
        value.len() <= u64::MAX,
    ensures
        ({
            let after = map_decoding(
                log + record_encoding(key, value) + tombstone_encoding(key),
            );
            &&& after.result == Ok::<Map<i64, Seq<u8>>, DecodeError>(m.remove(key))
            &&& after.read == log.len() + record_encoding(key, value).len() + tombstone_encoding(
                key,
            ).len()
            &&& after.discarded == map_decoding(log).discarded + superseded(
                m,
                key,
                i64_encoding(key).len(),
            ) + record_encoding(key, value).len() + tombstone_encoding(key).len()
        }),
{
    let nothing = Map::<i64, Seq<u8>>::empty();
    let put = record_encoding(key, value);
    let del = tombstone_encoding(key);
    let stored = m.insert(key, value);
    lemma_replay_append(nothing, log, put + del, m);
    lemma_replay_record(m, key, value, del);
    assert(del + Seq::<u8>::empty() =~= del);
    lemma_replay_tombstone(stored, key, Seq::empty());
    lemma_replay_nothing(stored.remove(key));
    assert(stored.remove(key) =~= m.remove(key));
    assert(log + put + del =~= log + (put + del));
}

/// A change to a table.
pub enum Change {
    /// The bytes `value` are stored under `key`.
    Insert { key: i64, value: Seq<u8> },
    /// The entry under `key` is removed.
    Remove { key: i64 },
    /// The log is rewritten to hold the index and nothing else.
    Compact,
}

/// The index after a change.
pub open spec fn index_after(index: Map<i64, Seq<u8>>, change: Change) -> Map<i64, Seq<u8>> {
    match change {
        Change::Insert { key, value } => index.insert(key, value),
        Change::Remove { key } => index.remove(key),
        Change::Compact => index,
    }
}

/// The log after a change to the table with the given log and index.
pub open spec fn log_after(log: Seq<u8>, index: Map<i64, Seq<u8>>, change: Change) -> Seq<u8> {
    match change {
        Change::Insert { key, value } => log + record_encoding(key, value),
        Change::Remove { key } => log + tombstone_encoding(key),
        Change::Compact => map_encoding(index),
    }
}

/// The index after a run of changes.
pub open spec fn index_after_all(
    index: Map<i64, Seq<u8>>,
    changes: Seq<Change>,
) -> Map<i64, Seq<u8>>
    decreases changes.len(),
{
    if changes.len() == 0 {
        index
    } else {
        index_after(index_after_all(index, changes.drop_last()), changes.last())
    }
}

/// The log after a run of changes to the table with the given log and
/// index.
pub open spec fn log_after_all(
    log: Seq<u8>,
    index: Map<i64, Seq<u8>>,
    changes: Seq<Change>,
) -> Seq<u8>
    decreases changes.len(),
{
    if changes.len() == 0 {
        log
    } else {
        log_after(
            log_after_all(log, index, changes.drop_last()),
            index_after_all(index, changes.drop_last()),
            changes.last(),
        )
    }
}

/// Whether every value that the changes store is short enough for its
/// length to be encoded.
pub open spec fn changes_fit(changes: Seq<Change>) -> bool {
    forall|i: int|
        0 <= i < changes.len() ==> ((#[trigger] changes[i]) matches Change::Insert { value, .. }
            ==> value.len() <= u64::MAX)
}

/// A log that replays to the index still does so after a change.
pub proof fn lemma_change_replays(log: Seq<u8>, index: Map<i64, Seq<u8>>, change: Change)
    requires
        map_decoding(log).result == Ok::<Map<i64, Seq<u8>>, DecodeError>(index),
        index.dom().finite(),
        values_fit(index),
        change matches Change::Insert { value, .. } ==> value.len() <= u64::MAX,
    ensures
        map_decoding(log_after(log, index, change)).result == Ok::<
            Map<i64, Seq<u8>>,
            DecodeError,
        >(index_after(index, change)),
        index_after(index, change).dom().finite(),
        values_fit(index_after(index, change)),
{
    let nothing = Map::<i64, Seq<u8>>::empty();
    match change {
        Change::Insert { key, value } => {
            let record = record_encoding(key, value);
            lemma_replay_append(nothing, log, record, index);
            lemma_replay_record(index, key, value, Seq::empty());
            lemma_replay_nothing(index.insert(key, value));
            assert(record + Seq::<u8>::empty() =~= record);
        },
        Change::Remove { key } => {
            let record = tombstone_encoding(key);
            lemma_replay_append(nothing, log, record, index);
            lemma_replay_tombstone(index, key, Seq::empty());
            lemma_replay_nothing(index.remove(key));
            assert(record + Seq::<u8>::empty() =~= record);
        },
        Change::Compact => {
            lemma_replay_compacted(index);
        },
    }
}

/// Whatever changes are made to a table, opening it again on its log gives
/// the index that the changes have led to.
pub proof fn lemma_replay_equivalence(
    log: Seq<u8>,
    index: Map<i64, Seq<u8>>,
    changes: Seq<Change>,
)
    requires
        map_decoding(log).result == Ok::<Map<i64, Seq<u8>>, DecodeError>(index),
        index.dom().finite(),
        values_fit(index),
        changes_fit(changes),
    ensures
        map_decoding(log_after_all(log, index, changes)).result == Ok::<
            Map<i64, Seq<u8>>,
            DecodeError,
        >(index_after_all(index, changes)),
        index_after_all(index, changes).dom().finite(),
        values_fit(index_after_all(index, changes)),
    decreases changes.len(),
{
    if changes.len() > 0 {
        let head = changes.drop_last();
        assert(changes_fit(head)) by {
            assert forall|i: int| 0 <= i < head.len() implies ((#[trigger] head[i]) matches Change::Insert {
                value,
                ..
            } ==> value.len() <= u64::MAX) by {
                assert(head[i] == changes[i]);
            }
        }
        lemma_replay_equivalence(log, index, head);
        assert(changes[changes.len() - 1] == changes.last());
        lemma_change_replays(
            log_after_all(log, index, head),
            index_after_all(index, head),
            changes.last(),
        );
    }
}

/// Taking one entry out of an index shortens its encoding by the record of
/// that entry.
pub proof fn lemma_map_encoding_remove(m: Map<i64, Seq<u8>>, k: i64)
    requires
        m.dom().finite(),
        m.contains_key(k),
    ensures
        map_encoding(m).len() == map_encoding(m.remove(k)).len() + record_encoding(k, m[k]).len(),
    decreases m.dom().len(),
{
    lemma_greatest_key_exists(m);
    let g = greatest_key(m);
    if g != k {
        let without_k = m.remove(k);
        assert(without_k.contains_key(g));
        lemma_greatest_key_exists(without_k);
        assert(is_greatest_key(without_k, g));
        assert(greatest_key(without_k) == g) by {
            let h = greatest_key(without_k);
            assert(without_k.dom().contains(h) && without_k.dom().contains(g));
        }
        lemma_map_encoding_remove(m.remove(g), k);
        assert(m.remove(g).remove(k) =~= without_k.remove(g));
    }
}

/// A signed integer never decodes from fewer bytes than its encoding has.
pub proof fn lemma_i64_encoding_shortest(s: Seq<u8>)
    requires
        i64_decoding(s).result is Ok,
    ensures
        1 <= i64_encoding(i64_decoding(s).result->Ok_0).len() <= i64_decoding(s).read,
{
    lemma_i64_encoding_len(i64_decoding(s).result->Ok_0);
}

/// A byte string never decodes from fewer bytes than its encoding has.
pub proof fn lemma_bytes_encoding_shortest(s: Seq<u8>)
    requires
        bytes_decoding(s).result is Ok,
    ensures
        bytes_encoding(bytes_decoding(s).result->Ok_0).len() <= bytes_decoding(s).read,
{
    let head = u64_decoding(s);
    let n = head.result->Ok_0;
    lemma_u64_encoding_len(n);
    let v = bytes_decoding(s).result->Ok_0;
    assert(v.len() == n);
}

/// What a record wastes, and what it adds to the encoding of the index, is
/// no more than twice its own length.
pub proof fn lemma_first_record_bound(m: Map<i64, Seq<u8>>, s: Seq<u8>)
    requires
        m.dom().finite(),
    ensures
        match first_record(m, s) {
            Step::Apply { index, read, discarded } => index.dom().finite() && discarded
                + map_encoding(index).len() <= 2 * read + map_encoding(m).len(),
            _ => true,
        },
{
    let k = i64_decoding(s);
    if let Step::Apply { index, read, discarded } = first_record(m, s) {
        let key = k.result->Ok_0;
        let v = bytes_decoding(s.skip(k.read as int));
        lemma_i64_encoding_shortest(s);
        if m.contains_key(key) {
            lemma_map_encoding_remove(m, key);
        } else {
            assert(m.remove(key) =~= m);
        }
        if let Ok(value) = v.result {
            lemma_bytes_encoding_shortest(s.skip(k.read as int));
            lemma_map_encoding_remove(index, key);
            assert(index.remove(key) =~= m.remove(key));
        }
    }
}

/// A replay pulls no more than the stream holds. What it wastes, together
/// with the encoding of the index it ends with, is no more than twice the
/// length of the stream and the encoding of the index it began with.
pub proof fn lemma_replay_bound(m: Map<i64, Seq<u8>>, s: Seq<u8>)
    requires
        m.dom().finite(),
    ensures
        replay(m, s).read <= s.len(),
        replay(m, s).discarded <= 2 * s.len() + map_encoding(m).len(),
        replay(m, s).result matches Ok(index) ==> index.dom().finite() && replay(m, s).discarded
            + map_encoding(index).len() <= 2 * s.len() + map_encoding(m).len(),
    decreases s.len(),
{
    reveal(replay);
    lemma_first_record_read(m, s);
    lemma_first_record_bound(m, s);
    if let Step::Apply { index, read, discarded } = first_record(m, s) {
        lemma_replay_bound(index, s.skip(read as int));
    }
}

/// Decoding a whole index pulls no more than the input holds and wastes no
/// more than twice its length.
pub proof fn lemma_map_decoding_bound(s: Seq<u8>)
    ensures
        map_decoding(s).read <= s.len(),
        map_decoding(s).discarded <= 2 * s.len(),
        map_decoding(s).result matches Ok(index) ==> index.dom().finite(),
{
    lemma_replay_bound(Map::empty(), s);
}

} // verus!

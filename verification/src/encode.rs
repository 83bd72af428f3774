//! The self-delimiting binary encoding of integers, byte strings, optional
//! integers and key-value streams.
//!
//! Every encoding is described twice: as a mathematical function from a
//! value to the bytes that stand for it, and as executable code that is
//! proved to append exactly those bytes.

use std::collections::BTreeMap;
use vstd::prelude::*;
use vstd::std_specs::cmp::OrdSpec;
use vstd::std_specs::iter::IteratorSpec;

use crate::index::map_model;
use crate::util::{hex_text, push_hex_pair};

verus! {

broadcast use vstd::std_specs::btree::group_btree_axioms;

/// 2^64, the number of values of a 64-bit word.
pub open spec fn word_modulus() -> int {
    0x1_0000_0000_0000_0000
}

/// The two big-endian bytes of `v`, for `0 <= v < 2^16`.
pub open spec fn be16(v: int) -> Seq<u8> {
    seq![((v / 0x100) % 0x100) as u8, (v % 0x100) as u8]
}

/// The eight big-endian bytes of `v`, for `0 <= v < 2^64`.
pub open spec fn be64(v: int) -> Seq<u8> {
    seq![
        ((v / 0x100_0000_0000_0000) % 0x100) as u8,
        ((v / 0x1_0000_0000_0000) % 0x100) as u8,
        ((v / 0x100_0000_0000) % 0x100) as u8,
        ((v / 0x1_0000_0000) % 0x100) as u8,
        ((v / 0x100_0000) % 0x100) as u8,
        ((v / 0x1_0000) % 0x100) as u8,
        ((v / 0x100) % 0x100) as u8,
        (v % 0x100) as u8,
    ]
}

/// The two's complement of `n` in a word of `modulus` values.
pub open spec fn twos_complement(n: int, modulus: int) -> int {
    if n < 0 {
        n + modulus
    } else {
        n
    }
}

/// The encoding of an unsigned integer: one byte below `0xFD`, else the tag
/// `0xFD` and two bytes below `0x10000`, else the tag `0xFE` and eight bytes.
pub open spec fn u64_encoding(n: u64) -> Seq<u8> {
    if n < 0xFD {
        seq![n as u8]
    } else if n < 0x10000 {
        seq![0xFDu8] + be16(n as int)
    } else {
        seq![0xFEu8] + be64(n as int)
    }
}

/// The encoding of a signed integer: one byte strictly between `-0x7F` and
/// `0x80`, else the tag `0x81` and two bytes within sixteen bits, else the
/// tag `0x80` and eight bytes; all in two's complement.
pub open spec fn i64_encoding(n: i64) -> Seq<u8> {
    if -0x7F < n < 0x80 {
        seq![twos_complement(n as int, 0x100) as u8]
    } else if -0x8000 <= n < 0x8000 {
        seq![0x81u8] + be16(twos_complement(n as int, 0x10000))
    } else {
        seq![0x80u8] + be64(twos_complement(n as int, word_modulus()))
    }
}

/// The encoding of an optional unsigned integer: `0xFF` stands for none.
pub open spec fn opt_u64_encoding(v: Option<u64>) -> Seq<u8> {
    match v {
        None => seq![0xFFu8],
        Some(n) => u64_encoding(n),
    }
}

/// The encoding of a byte string: its length as an unsigned integer, then
/// the bytes themselves.
pub open spec fn bytes_encoding(s: Seq<u8>) -> Seq<u8> {
    u64_encoding(s.len() as u64) + s
}

/// The encoding of one record of a key-value stream.
pub open spec fn record_encoding(key: i64, value: Seq<u8>) -> Seq<u8> {
    i64_encoding(key) + bytes_encoding(value)
}

/// The record that deletes `key` from a key-value stream.
pub open spec fn tombstone_encoding(key: i64) -> Seq<u8> {
    i64_encoding(key) + opt_u64_encoding(None)
}

/// Whether `k` is the greatest key of `m`.
pub open spec fn is_greatest_key<V>(m: Map<i64, V>, k: i64) -> bool {
    m.dom().contains(k) && forall|j: i64| m.dom().contains(j) ==> j <= k
}

/// The greatest key of a map that has one.
pub open spec fn greatest_key<V>(m: Map<i64, V>) -> i64 {
    choose|k: i64| is_greatest_key(m, k)
}

/// The encoding of a finite map: its records in ascending key order, with
/// no length in front. It is stated from the far end: the record of the
/// greatest key comes last.
pub open spec fn map_encoding(m: Map<i64, Seq<u8>>) -> Seq<u8>
    decreases m.dom().len(),
    when m.dom().finite()
{
    if m.dom().len() == 0 {
        Seq::empty()
    } else {
        let k = greatest_key(m);
        if is_greatest_key(m, k) {
            map_encoding(m.remove(k)) + record_encoding(k, m[k])
        } else {
            Seq::empty()
        }
    }
}

/// The encoding of a run of records, in the order given.
pub open spec fn records_encoding(s: Seq<(i64, Seq<u8>)>) -> Seq<u8>
    decreases s.len(),
{
    if s.len() == 0 {
        Seq::empty()
    } else {
        records_encoding(s.drop_last()) + record_encoding(s.last().0, s.last().1)
    }
}

/// Whether the keys of `s` ascend strictly.
pub open spec fn keys_ascend(s: Seq<(i64, Seq<u8>)>) -> bool {
    forall|i: int, j: int| 0 <= i < j < s.len() ==> s[i].0 < s[j].0
}

/// Whether `s` lists exactly the entries of `m`.
pub open spec fn lists_entries(s: Seq<(i64, Seq<u8>)>, m: Map<i64, Seq<u8>>) -> bool {
    &&& forall|i: int| 0 <= i < s.len() ==> m.contains_key(#[trigger] s[i].0) && m[s[i].0] == s[i].1
    &&& forall|k: i64| #[trigger] m.contains_key(k) ==> exists|i: int| 0 <= i < s.len() && s[i].0 == k
}

/// A finite map has a greatest key unless it is empty.
pub proof fn lemma_greatest_key_exists<V>(m: Map<i64, V>)
    requires
        m.dom().finite(),
        m.dom().len() > 0,
    ensures
        is_greatest_key(m, greatest_key(m)),
    decreases m.dom().len(),
{
    let k = m.dom().choose();
    let rest = m.remove(k);
    if rest.dom().len() == 0 {
        assert forall|j: i64| m.dom().contains(j) implies j <= k by {
            if j != k {
                assert(rest.dom().contains(j));
            }
        }
        assert(is_greatest_key(m, k));
    } else {
        lemma_greatest_key_exists(rest);
        let g = greatest_key(rest);
        let top = if g < k { k } else { g };
        assert forall|j: i64| m.dom().contains(j) implies j <= top by {
            if j != k {
                assert(rest.dom().contains(j));
            }
        }
        assert(is_greatest_key(m, top));
    }
}

/// The encoding of a map is the encoding of its entries listed in ascending
/// key order.
pub proof fn lemma_map_encoding_sorted(m: Map<i64, Seq<u8>>, s: Seq<(i64, Seq<u8>)>)
    requires
        m.dom().finite(),
        keys_ascend(s),
        lists_entries(s, m),
    ensures
        map_encoding(m) == records_encoding(s),
        s.len() == m.dom().len(),
    decreases s.len(),
{
    if s.len() == 0 {
        if m.dom().len() != 0 {
            let k = m.dom().choose();
            assert(m.contains_key(k));
        }
    } else {
        let last = s.last();
        assert(m.contains_key(s[s.len() - 1].0));
        assert(is_greatest_key(m, last.0)) by {
            assert forall|j: i64| m.dom().contains(j) implies j <= last.0 by {
                assert(m.contains_key(j));
                let i = choose|i: int| 0 <= i < s.len() && s[i].0 == j;
                assert(s[i].0 <= s[s.len() - 1].0);
            }
        }
        let g = greatest_key(m);
        assert(is_greatest_key(m, g) && g == last.0);
        let rest_m = m.remove(g);
        let rest_s = s.drop_last();
        assert(lists_entries(rest_s, rest_m)) by {
            assert forall|i: int| 0 <= i < rest_s.len() implies rest_m.contains_key(
                #[trigger] rest_s[i].0,
            ) && rest_m[rest_s[i].0] == rest_s[i].1 by {
                assert(rest_s[i] == s[i]);
                assert(m.contains_key(s[i].0));
                assert(s[i].0 < s[s.len() - 1].0);
            }
            assert forall|k: i64| #[trigger] rest_m.contains_key(k) implies exists|i: int|
                0 <= i < rest_s.len() && rest_s[i].0 == k by {
                assert(m.contains_key(k));
                let i = choose|i: int| 0 <= i < s.len() && s[i].0 == k;
                assert(rest_s[i] == s[i]);
            }
        }
        lemma_map_encoding_sorted(rest_m, rest_s);
    }
}

/// A run of records is no shorter than any of its prefixes.
pub proof fn lemma_records_prefix_len(s: Seq<(i64, Seq<u8>)>, n: int)
    requires
        0 <= n <= s.len(),
    ensures
        records_encoding(s.take(n)).len() <= records_encoding(s).len(),
    decreases s.len(),
{
    if n == s.len() {
        assert(s.take(n) =~= s);
    } else {
        lemma_records_prefix_len(s.drop_last(), n);
        assert(s.drop_last().take(n) =~= s.take(n));
    }
}

/// An unsigned integer takes one, three or nine bytes.
pub proof fn lemma_u64_encoding_len(n: u64)
    ensures
        u64_encoding(n).len() == if n < 0xFD {
            1nat
        } else if n < 0x10000 {
            3nat
        } else {
            9nat
        },
{
    assert(be16(n as int).len() == 2);
    assert(be64(n as int).len() == 8);
}

/// A signed integer takes one, three or nine bytes.
pub proof fn lemma_i64_encoding_len(n: i64)
    ensures
        i64_encoding(n).len() == if -0x7F < n < 0x80 {
            1nat
        } else if -0x8000 <= n < 0x8000 {
            3nat
        } else {
            9nat
        },
{
    assert(be16(twos_complement(n as int, 0x10000)).len() == 2);
    assert(be64(twos_complement(n as int, word_modulus())).len() == 8);
}

/// A value with a binary encoding.
pub trait Encode {
    /// The bytes that stand for this value.
    spec fn encoding(&self) -> Seq<u8>;

    /// Appends the encoding of this value to `out`.
    fn encode(&self, out: &mut Vec<u8>)
        ensures
            final(out)@ == old(out)@ + self.encoding(),
    ;

    /// The number of bytes that `encode` appends.
    fn encode_size(&self) -> (n: usize)
        requires
            self.encoding().len() <= usize::MAX,
        ensures
            n == self.encoding().len(),
    ;
}

/// Appends the two big-endian bytes of `v` to `out`.
pub fn push_be16(out: &mut Vec<u8>, v: u16)
    ensures
        final(out)@ == old(out)@ + be16(v as int),
{
    let hi: u8 = (v >> 8) as u8;
    let lo: u8 = (v & 0xFF) as u8;
    assert(v >> 8 == v / 0x100 && (v / 0x100) % 0x100 == v / 0x100 && v & 0xFF == v % 0x100)
        by (bit_vector);
    out.push(hi);
    out.push(lo);
    assert(out@ =~= old(out)@ + be16(v as int));
}

/// Appends the eight big-endian bytes of `v` to `out`.
pub fn push_be64(out: &mut Vec<u8>, v: u64)
    ensures
        final(out)@ == old(out)@ + be64(v as int),
{
    let b0: u8 = (v >> 56) as u8;
    let b1: u8 = ((v >> 48) & 0xFF) as u8;
    let b2: u8 = ((v >> 40) & 0xFF) as u8;
    let b3: u8 = ((v >> 32) & 0xFF) as u8;
    let b4: u8 = ((v >> 24) & 0xFF) as u8;
    let b5: u8 = ((v >> 16) & 0xFF) as u8;
    let b6: u8 = ((v >> 8) & 0xFF) as u8;
    let b7: u8 = (v & 0xFF) as u8;
    assert(v >> 56 == (v / 0x100_0000_0000_0000) % 0x100 && (v >> 48) & 0xFF == (v
        / 0x1_0000_0000_0000) % 0x100 && (v >> 40) & 0xFF == (v / 0x100_0000_0000) % 0x100 && (v
        >> 32) & 0xFF == (v / 0x1_0000_0000) % 0x100) by (bit_vector);
    assert((v >> 24) & 0xFF == (v / 0x100_0000) % 0x100 && (v >> 16) & 0xFF == (v / 0x1_0000)
        % 0x100 && (v >> 8) & 0xFF == (v / 0x100) % 0x100 && v & 0xFF == v % 0x100)
        by (bit_vector);
    out.push(b0);
    out.push(b1);
    out.push(b2);
    out.push(b3);
    out.push(b4);
    out.push(b5);
    out.push(b6);
    out.push(b7);
    assert(out@ =~= old(out)@ + be64(v as int));
}

impl Encode for u64 {
    open spec fn encoding(&self) -> Seq<u8> {
        u64_encoding(*self)
    }

    fn encode(&self, out: &mut Vec<u8>) {
        let n = *self;
        if n < 0xFD {
            out.push(n as u8);
            assert(out@ =~= old(out)@ + u64_encoding(n));
        } else if n < 0x10000 {
            out.push(0xFD);
            push_be16(out, n as u16);
            assert(out@ =~= old(out)@ + u64_encoding(n));
        } else {
            out.push(0xFE);
            push_be64(out, n);
            assert(out@ =~= old(out)@ + u64_encoding(n));
        }
    }

    fn encode_size(&self) -> (n: usize) {
        let v = *self;
        proof {
            lemma_u64_encoding_len(v);
            assert(self.encoding() == u64_encoding(v));
        }
        if v < 0xFD {
            1
        } else if v < 0x10000 {
            3
        } else {
            9
        }
    }
}

/// The low sixteen bits of `n`, which is its two's complement when `n` fits
/// in sixteen bits.
fn low16(n: i64) -> (v: u16)
    requires
        -0x8000 <= n < 0x8000,
    ensures
        v as int == twos_complement(n as int, 0x10000),
{
    if n < 0 {
        (n + 0x10000) as u16
    } else {
        n as u16
    }
}

/// The 64-bit word that holds `n` in two's complement.
fn word_of(n: i64) -> (v: u64)
    ensures
        v as int == twos_complement(n as int, word_modulus()),
{
    if n < 0 {
        // -(n + 1) is in range for every negative n
        let m: u64 = (-(n + 1)) as u64;
        u64::MAX - m
    } else {
        n as u64
    }
}

impl Encode for i64 {
    open spec fn encoding(&self) -> Seq<u8> {
        i64_encoding(*self)
    }

    fn encode(&self, out: &mut Vec<u8>) {
        let n = *self;
        if -0x7F < n && n < 0x80 {
            let b: u8 = if n < 0 {
                (n + 0x100) as u8
            } else {
                n as u8
            };
            out.push(b);
            assert(out@ =~= old(out)@ + i64_encoding(n));
        } else if -0x8000 <= n && n < 0x8000 {
            out.push(0x81);
            push_be16(out, low16(n));
            assert(out@ =~= old(out)@ + i64_encoding(n));
        } else {
            out.push(0x80);
            push_be64(out, word_of(n));
            assert(out@ =~= old(out)@ + i64_encoding(n));
        }
    }

    fn encode_size(&self) -> (n: usize) {
        let v = *self;
        proof {
            lemma_i64_encoding_len(v);
        }
        if -0x7F < v && v < 0x80 {
            1
        } else if -0x8000 <= v && v < 0x8000 {
            3
        } else {
            9
        }
    }
}

impl Encode for Option<u64> {
    open spec fn encoding(&self) -> Seq<u8> {
        opt_u64_encoding(*self)
    }

    fn encode(&self, out: &mut Vec<u8>) {
        match *self {
            None => {
                out.push(0xFF);
                assert(out@ =~= old(out)@ + opt_u64_encoding(None));
            },
            Some(n) => n.encode(out),
        }
    }

    fn encode_size(&self) -> (n: usize) {
        match *self {
            None => 1,
            Some(n) => n.encode_size(),
        }
    }
}

/// Appends the encoding of a byte string to `out`.
pub fn encode_bytes(bytes: &[u8], out: &mut Vec<u8>)
    ensures
        final(out)@ == old(out)@ + bytes_encoding(bytes@),
{
    let n = bytes.len() as u64;
    n.encode(out);
    out.extend_from_slice(bytes);
    assert(out@ =~= old(out)@ + bytes_encoding(bytes@));
}

/// The number of bytes that `encode_bytes` appends.
pub fn bytes_encode_size(bytes: &[u8]) -> (n: usize)
    requires
        bytes_encoding(bytes@).len() <= usize::MAX,
    ensures
        n == bytes_encoding(bytes@).len(),
{
    (bytes.len() as u64).encode_size() + bytes.len()
}

impl<'a> Encode for &'a [u8] {
    open spec fn encoding(&self) -> Seq<u8> {
        bytes_encoding(self@)
    }

    fn encode(&self, out: &mut Vec<u8>) {
        encode_bytes(*self, out)
    }

    fn encode_size(&self) -> (n: usize) {
        bytes_encode_size(*self)
    }
}

impl Encode for Vec<u8> {
    open spec fn encoding(&self) -> Seq<u8> {
        bytes_encoding(self@)
    }

    fn encode(&self, out: &mut Vec<u8>) {
        encode_bytes(self.as_slice(), out)
    }

    fn encode_size(&self) -> (n: usize) {
        bytes_encode_size(self.as_slice())
    }
}

/// The entries that an in-order walk of an index yields, as plain values.
pub open spec fn walk_model(walk: Seq<(&i64, &Vec<u8>)>) -> Seq<(i64, Seq<u8>)> {
    walk.map_values(|kv: (&i64, &Vec<u8>)| (*kv.0, kv.1@))
}

/// An in-order walk of an index lists its entries by ascending key.
pub proof fn lemma_walk_sorted(m: &BTreeMap<i64, Vec<u8>>, walk: Seq<(&i64, &Vec<u8>)>)
    requires
        walk == m.iter().remaining(),
        vstd::std_specs::btree::increasing_seq(walk.map_values(|kv: (&i64, &Vec<u8>)| *kv.0)),
    ensures
        keys_ascend(walk_model(walk)),
        lists_entries(walk_model(walk), map_model(m@)),
        map_model(m@).dom().finite(),
{
    broadcast use vstd::laws_cmp::group_laws_cmp;

    let keys = walk.map_values(|kv: (&i64, &Vec<u8>)| *kv.0);
    let s = walk_model(walk);
    vstd::std_specs::btree::axiom_increasing_seq_meaning(keys);
    assert forall|i: int, j: int| 0 <= i < j < s.len() implies s[i].0 < s[j].0 by {
        assert(keys[i].cmp_spec(&keys[j]) is Less);
    }
    let mm = map_model(m@);
    assert(mm.dom() =~= m@.dom());
    assert forall|i: int| 0 <= i < s.len() implies mm.contains_key(#[trigger] s[i].0) && mm[s[i].0]
        == s[i].1 by {
        assert(m@.contains_key(*walk[i].0));
    }
    assert forall|k: i64| #[trigger] mm.contains_key(k) implies exists|i: int|
        0 <= i < s.len() && s[i].0 == k by {
        assert(m@.contains_key(k));
        assert(walk.contains((&k, &m@[k])));
        let i = choose|i: int| 0 <= i < walk.len() && walk[i] == (&k, &m@[k]);
        assert(s[i].0 == k);
    }
}

impl Encode for BTreeMap<i64, Vec<u8>> {
    open spec fn encoding(&self) -> Seq<u8> {
        map_encoding(map_model(self@))
    }

    fn encode(&self, out: &mut Vec<u8>) {
        for kv in it: self.iter()
            invariant
                it.seq() == self.iter().remaining(),
                vstd::std_specs::btree::increasing_seq(
                    it.seq().map_values(|kv: (&i64, &Vec<u8>)| *kv.0),
                ),
                out@ == old(out)@ + records_encoding(walk_model(it.seq()).take(it.index())),
        {
            let ghost before = walk_model(it.seq()).take(it.index());
            let ghost after = walk_model(it.seq()).take(it.index() + 1);
            kv.0.encode(out);
            encode_bytes(kv.1.as_slice(), out);
            proof {
                assert(after.drop_last() =~= before);
                assert(after.last() == (*kv.0, kv.1@));
                assert(out@ =~= old(out)@ + records_encoding(after));
            }
        }
        proof {
            lemma_walk_sorted(self, self.iter().remaining());
            let s = walk_model(self.iter().remaining());
            lemma_map_encoding_sorted(map_model(self@), s);
            assert(s.take(s.len() as int) =~= s);
        }
    }

    fn encode_size(&self) -> (n: usize) {
        let mut n: usize = 0;
        for kv in it: self.iter()
            invariant
                it.seq() == self.iter().remaining(),
                vstd::std_specs::btree::increasing_seq(
                    it.seq().map_values(|kv: (&i64, &Vec<u8>)| *kv.0),
                ),
                map_encoding(map_model(self@)).len() <= usize::MAX,
                n == records_encoding(walk_model(it.seq()).take(it.index())).len(),
        {
            let ghost before = walk_model(it.seq()).take(it.index());
            let ghost after = walk_model(it.seq()).take(it.index() + 1);
            proof {
                lemma_walk_sorted(self, it.seq());
                lemma_map_encoding_sorted(map_model(self@), walk_model(it.seq()));
                assert(after.drop_last() =~= before);
                assert(after.last() == (*kv.0, kv.1@));
                lemma_records_prefix_len(walk_model(it.seq()), it.index() + 1);
            }
            n = n + kv.0.encode_size();
            n = n + bytes_encode_size(kv.1.as_slice());
        }
        proof {
            let s = walk_model(self.iter().remaining());
            lemma_walk_sorted(self, self.iter().remaining());
            lemma_map_encoding_sorted(map_model(self@), s);
            assert(s.take(s.len() as int) =~= s);
        }
        n
    }
}

/// The encoding of a value, as a fresh byte vector.
pub fn encode<T: Encode>(ob: &T) -> (v: Vec<u8>)
    ensures
        v@ == ob.encoding(),
{
    let mut v: Vec<u8> = Vec::new();
    ob.encode(&mut v);
    assert(v@ =~= ob.encoding());
    v
}

/// The encoding of a value in upper-case hexadecimal, two digits a byte.
pub fn encode_to_hex<T: Encode>(ob: &T) -> (s: String)
    ensures
        s@ == hex_text(ob.encoding()),
{
    let v = encode(ob);
    let mut s = String::new();
    let mut i: usize = 0;
    while i < v.len()
        invariant
            i <= v.len(),
            s@ == hex_text(v@.take(i as int)),
        decreases v.len() - i,
    {
        push_hex_pair(&mut s, v[i]);
        proof {
            assert(v@.take(i + 1).drop_last() =~= v@.take(i as int));
        }
        i = i + 1;
    }
    proof {
        assert(v@.take(v.len() as int) =~= v@);
    }
    s
}

} // verus!

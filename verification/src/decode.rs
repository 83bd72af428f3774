//! Decoders for the binary encoding, over bytes held in memory.
//!
//! Each decoder is specified by a function from the input that is left to a
//! `Decoding`: the value or the failure, the number of bytes pulled from the
//! input, and the number of bytes counted as wasted.

use std::collections::BTreeMap;
use vstd::prelude::*;
use vstd::slice::{slice_subrange, slice_to_vec};

use crate::encode::{bytes_encode_size, bytes_encoding};
use crate::index::{index_insert, index_remove, map_model, DataMap};

verus! {

broadcast use vstd::std_specs::btree::group_btree_axioms;

/// Why a decoder stopped without a value.
#[derive(Debug, Clone, Copy, PartialEq, Eq, Structural)]
pub enum DecodeError {
    /// The input ended before the first byte of the value.
    EOF,
    /// The reserved tag `0xFF` stood where a value was required.
    Null,
    /// The input ended inside the value.
    PartialRead,
}

/// Running totals of the bytes that decoders have pulled from their input
/// and of the bytes among them that hold nothing live.
pub struct DecodeStats {
    read: usize,
    discarded: usize,
}

impl DecodeStats {
    /// The number of bytes pulled so far, as a specification value.
    pub closed spec fn spec_read(&self) -> usize {
        self.read
    }

    /// The number of wasted bytes so far, as a specification value.
    pub closed spec fn spec_discarded(&self) -> usize {
        self.discarded
    }

    /// Totals that start from nothing.
    pub fn new() -> (stats: DecodeStats)
        ensures
            stats.read() == 0,
            stats.discarded() == 0,
    {
        DecodeStats { read: 0, discarded: 0 }
    }

    /// The number of bytes pulled from the input so far.
    #[verifier::when_used_as_spec(spec_read)]
    pub fn read(&self) -> (n: usize)
        ensures
            n == self.read(),
    {
        self.read
    }

    /// The number of bytes counted as wasted so far.
    #[verifier::when_used_as_spec(spec_discarded)]
    pub fn discarded(&self) -> (n: usize)
        ensures
            n == self.discarded(),
    {
        self.discarded
    }
}

impl Default for DecodeStats {
    fn default() -> (stats: DecodeStats)
        ensures
            stats.read() == 0,
            stats.discarded() == 0,
    {
        DecodeStats::new()
    }
}

/// A read position in a byte slice.
pub struct Cursor<'a> {
    data: &'a [u8],
    pos: usize,
}

impl<'a> Cursor<'a> {
    #[verifier::type_invariant]
    spec fn in_bounds(&self) -> bool {
        self.pos <= self.data@.len()
    }

    /// The bytes that have not been read yet.
    pub closed spec fn remaining(&self) -> Seq<u8> {
        self.data@.skip(self.pos as int)
    }

    /// The number of bytes read so far, as a specification value.
    pub closed spec fn spec_position(&self) -> usize {
        self.pos
    }

    /// A cursor at the start of `data`.
    pub fn new(data: &'a [u8]) -> (c: Cursor<'a>)
        ensures
            c.remaining() == data@,
            c.position() == 0,
    {
        Cursor { data, pos: 0 }
    }

    /// The number of bytes read so far.
    #[verifier::when_used_as_spec(spec_position)]
    pub fn position(&self) -> (n: usize)
        ensures
            n == self.position(),
    {
        self.pos
    }

    /// The number of bytes that have not been read yet.
    pub fn remaining_len(&self) -> (n: usize)
        ensures
            n == self.remaining().len(),
    {
        proof {
            use_type_invariant(self);
        }
        self.data.len() - self.pos
    }

    /// Reads up to `n` bytes: all of them, or as many as are left.
    pub fn take(&mut self, n: usize) -> (s: &'a [u8])
        ensures
            s@ == old(self).remaining().take(
                if n <= old(self).remaining().len() {
                    n as int
                } else {
                    old(self).remaining().len() as int
                },
            ),
            final(self).remaining() == old(self).remaining().skip(s@.len() as int),
            final(self).position() == old(self).position() + s@.len(),
    {
        proof {
            use_type_invariant(&*self);
        }
        let left = self.data.len() - self.pos;
        let k = if n <= left {
            n
        } else {
            left
        };
        let s = slice_subrange(self.data, self.pos, self.pos + k);
        proof {
            assert(s@ =~= self.remaining().take(k as int));
            assert(self.data@.skip(self.pos + k) =~= self.remaining().skip(k as int));
        }
        self.pos = self.pos + k;
        s
    }
}

/// What a decoder makes of an input: the value or the failure, how many
/// bytes it pulls, and how many of them it counts as wasted.
pub struct Decoding<T> {
    pub result: Result<T, DecodeError>,
    pub read: nat,
    pub discarded: nat,
}

/// The unsigned integer that two big-endian bytes stand for.
pub open spec fn be16_value(s: Seq<u8>) -> int {
    0x100 * s[0] + s[1]
}

/// The unsigned integer that eight big-endian bytes stand for.
pub open spec fn be64_value(s: Seq<u8>) -> int {
    0x100_0000_0000_0000 * s[0] + 0x1_0000_0000_0000 * s[1] + 0x100_0000_0000 * s[2]
        + 0x1_0000_0000 * s[3] + 0x100_0000 * s[4] + 0x1_0000 * s[5] + 0x100 * s[6] + s[7]
}

/// The signed integer whose two's complement in a word of `modulus` values
/// is `v`.
pub open spec fn from_twos_complement(v: int, modulus: int) -> int {
    if 2 * v >= modulus {
        v - modulus
    } else {
        v
    }
}

/// A decoding that fails inside a value after the tag byte: every byte of
/// the input is pulled, and those after the tag are wasted.
pub open spec fn cut_short<T>(s: Seq<u8>) -> Decoding<T> {
    Decoding { result: Err(DecodeError::PartialRead), read: s.len(), discarded: (s.len() - 1) as nat }
}

/// What decoding an unsigned integer makes of `s`.
pub open spec fn u64_decoding(s: Seq<u8>) -> Decoding<u64> {
    if s.len() == 0 {
        Decoding { result: Err(DecodeError::EOF), read: 0, discarded: 0 }
    } else if s[0] < 0xFD {
        Decoding { result: Ok(s[0] as u64), read: 1, discarded: 0 }
    } else if s[0] == 0xFD {
        if s.len() >= 3 {
            Decoding { result: Ok(be16_value(s.subrange(1, 3)) as u64), read: 3, discarded: 0 }
        } else {
            cut_short(s)
        }
    } else if s[0] == 0xFE {
        if s.len() >= 9 {
            Decoding { result: Ok(be64_value(s.subrange(1, 9)) as u64), read: 9, discarded: 0 }
        } else {
            cut_short(s)
        }
    } else {
        Decoding { result: Err(DecodeError::Null), read: 1, discarded: 0 }
    }
}

/// What decoding a signed integer makes of `s`.
pub open spec fn i64_decoding(s: Seq<u8>) -> Decoding<i64> {
    if s.len() == 0 {
        Decoding { result: Err(DecodeError::EOF), read: 0, discarded: 0 }
    } else if s[0] != 0x80 && s[0] != 0x81 {
        Decoding { result: Ok(from_twos_complement(s[0] as int, 0x100) as i64), read: 1, discarded: 0 }
    } else if s[0] == 0x81 {
        if s.len() >= 3 {
            Decoding {
                result: Ok(from_twos_complement(be16_value(s.subrange(1, 3)), 0x10000) as i64),
                read: 3,
                discarded: 0,
            }
        } else {
            cut_short(s)
        }
    } else {
        if s.len() >= 9 {
            Decoding {
                result: Ok(
                    from_twos_complement(
                        be64_value(s.subrange(1, 9)),
                        0x1_0000_0000_0000_0000,
                    ) as i64,
                ),
                read: 9,
                discarded: 0,
            }
        } else {
            cut_short(s)
        }
    }
}

/// What decoding an optional unsigned integer makes of `s`: the reserved
/// tag is the value none.
pub open spec fn opt_u64_decoding(s: Seq<u8>) -> Decoding<Option<u64>> {
    let d = u64_decoding(s);
    match d.result {
        Ok(n) => Decoding { result: Ok(Some(n)), read: d.read, discarded: d.discarded },
        Err(DecodeError::Null) => Decoding { result: Ok(None), read: d.read, discarded: d.discarded },
        Err(e) => Decoding { result: Err(e), read: d.read, discarded: d.discarded },
    }
}

/// What decoding a byte string makes of `s`. A failure in the length is
/// passed on as it is; when the bytes run out before the length is met,
/// all that was pulled for the string is wasted.
pub open spec fn bytes_decoding(s: Seq<u8>) -> Decoding<Seq<u8>> {
    let head = u64_decoding(s);
    match head.result {
        Err(e) => Decoding { result: Err(e), read: head.read, discarded: head.discarded },
        Ok(n) => {
            let body = s.skip(head.read as int);
            if n <= body.len() {
                Decoding { result: Ok(body.take(n as int)), read: head.read + n as nat, discarded: 0 }
            } else {
                Decoding { result: Err(DecodeError::PartialRead), read: s.len(), discarded: s.len() }
            }
        },
    }
}

/// The bytes that die when a record whose key took `key_read` bytes
/// replaces or removes the entry under `key`: nothing when there is no such
/// entry, else the key again and the encoding of the old value.
pub open spec fn superseded(m: Map<i64, Seq<u8>>, key: i64, key_read: nat) -> nat {
    if m.contains_key(key) {
        key_read + bytes_encoding(m[key]).len()
    } else {
        0
    }
}

/// The decoding that first pulls `read` bytes, wasting `discarded` of them,
/// and then goes on as `rest` does.
pub open spec fn and_then<T>(read: nat, discarded: nat, rest: Decoding<T>) -> Decoding<T> {
    Decoding { result: rest.result, read: read + rest.read, discarded: discarded + rest.discarded }
}

/// What the head of a stream of records does to an index.
pub enum Step {
    /// The input ends in front of a key: the stream is over.
    End,
    /// The head is no whole record.
    Fail { error: DecodeError, read: nat, discarded: nat },
    /// The head is a record: it took `read` bytes and wasted `discarded`,
    /// and `index` is what it made of the index.
    Apply { index: Map<i64, Seq<u8>>, read: nat, discarded: nat },
}

/// What the head of the stream `s` does to the index `m`.
///
/// A record is a key and a byte string, which is stored under the key, or a
/// key and the tag `0xFF`, which removes the key. What a record supersedes
/// is wasted, and so is every removing record itself. An input that ends
/// between a key and its value is cut short, with nothing counted as wasted.
pub open spec fn first_record(m: Map<i64, Seq<u8>>, s: Seq<u8>) -> Step {
    let k = i64_decoding(s);
    match k.result {
        Err(DecodeError::EOF) => Step::End,
        Err(e) => Step::Fail { error: e, read: k.read, discarded: k.discarded },
        Ok(key) => {
            let v = bytes_decoding(s.skip(k.read as int));
            match v.result {
                Ok(value) => Step::Apply {
                    index: m.insert(key, value),
                    read: k.read + v.read,
                    discarded: superseded(m, key, k.read),
                },
                Err(DecodeError::Null) => Step::Apply {
                    index: m.remove(key),
                    read: k.read + v.read,
                    discarded: k.read + 1 + superseded(m, key, k.read),
                },
                Err(DecodeError::EOF) => Step::Fail {
                    error: DecodeError::PartialRead,
                    read: k.read,
                    discarded: 0,
                },
                Err(e) => Step::Fail { error: e, read: k.read + v.read, discarded: v.discarded },
            }
        },
    }
}

/// What replaying the stream of records `s` over the index `m` makes of it:
/// the records are applied one after the other until the stream is over or
/// its head is no whole record.
#[verifier::opaque]
pub open spec fn replay(m: Map<i64, Seq<u8>>, s: Seq<u8>) -> Decoding<Map<i64, Seq<u8>>>
    decreases s.len(),
{
    match first_record(m, s) {
        Step::End => Decoding { result: Ok(m), read: 0, discarded: 0 },
        Step::Fail { error, read, discarded } => Decoding { result: Err(error), read, discarded },
        Step::Apply { index, read, discarded } => and_then(
            read,
            discarded,
            replay(index, s.skip(read as int)),
        ),
    }
}

/// A record takes at least two bytes, and no more than there are.
pub proof fn lemma_first_record_read(m: Map<i64, Seq<u8>>, s: Seq<u8>)
    ensures
        match first_record(m, s) {
            Step::End => s.len() == 0,
            Step::Fail { read, discarded, .. } => 0 < read <= s.len() && discarded <= s.len(),
            Step::Apply { read, .. } => 2 <= read <= s.len(),
        },
{
}

/// What decoding a whole index makes of `s`: the replay of `s` over the
/// empty index.
pub open spec fn map_decoding(s: Seq<u8>) -> Decoding<Map<i64, Seq<u8>>> {
    replay(Map::empty(), s)
}

/// Whether a decoder that met `input` and left `rest` has moved the input
/// and the totals as `d` says.
pub open spec fn advanced<T>(
    input: Seq<u8>,
    rest: Seq<u8>,
    before: DecodeStats,
    after: DecodeStats,
    d: Decoding<T>,
) -> bool {
    &&& d.read <= input.len()
    &&& rest == input.skip(d.read as int)
    &&& after.read() == before.read() + d.read
    &&& after.discarded() == before.discarded() + d.discarded
}

/// Whether the totals have room for what `d` adds to them.
pub open spec fn has_room<T>(stats: DecodeStats, d: Decoding<T>) -> bool {
    &&& stats.read() + d.read <= usize::MAX
    &&& stats.discarded() + d.discarded <= usize::MAX
}

/// A value that can be decoded from bytes.
pub trait Decode: Sized {
    /// The mathematical value that a decoded value stands for.
    type Model;

    /// The mathematical value of `self`.
    spec fn model(&self) -> Self::Model;

    /// What decoding makes of the input `s`.
    spec fn decoding(s: Seq<u8>) -> Decoding<Self::Model>;

    /// Decodes one value from `src`, adding to `stats` what was pulled and
    /// what was wasted.
    fn decode_stats(src: &mut Cursor, stats: &mut DecodeStats) -> (r: Result<Self, DecodeError>)
        requires
            has_room(*old(stats), Self::decoding(old(src).remaining())),
        ensures
            advanced(
                old(src).remaining(),
                final(src).remaining(),
                *old(stats),
                *final(stats),
                Self::decoding(old(src).remaining()),
            ),
            match r {
                Ok(v) => Self::decoding(old(src).remaining()).result == Ok::<
                    Self::Model,
                    DecodeError,
                >(v.model()),
                Err(e) => Self::decoding(old(src).remaining()).result == Err::<
                    Self::Model,
                    DecodeError,
                >(e),
            },
    ;

    /// Decodes one value from `src`, keeping no totals.
    fn decode(src: &mut Cursor) -> (r: Result<Self, DecodeError>)
        requires
            Self::decoding(old(src).remaining()).read <= usize::MAX,
            Self::decoding(old(src).remaining()).discarded <= usize::MAX,
        ensures
            Self::decoding(old(src).remaining()).read <= old(src).remaining().len(),
            final(src).remaining() == old(src).remaining().skip(
                Self::decoding(old(src).remaining()).read as int,
            ),
            match r {
                Ok(v) => Self::decoding(old(src).remaining()).result == Ok::<
                    Self::Model,
                    DecodeError,
                >(v.model()),
                Err(e) => Self::decoding(old(src).remaining()).result == Err::<
                    Self::Model,
                    DecodeError,
                >(e),
            },
    {
        let mut stats = DecodeStats::new();
        Self::decode_stats(src, &mut stats)
    }
}

/// Reads the `width` bytes that follow a tag. When fewer are left, all of
/// them are pulled and counted as wasted.
fn read_body<'a>(src: &mut Cursor<'a>, stats: &mut DecodeStats, width: usize) -> (r: Option<
    &'a [u8],
>)
    requires
        old(src).remaining().len() >= width ==> old(stats).read() + width <= usize::MAX,
        old(src).remaining().len() < width ==> old(stats).read() + old(src).remaining().len()
            <= usize::MAX && old(stats).discarded() + old(src).remaining().len() <= usize::MAX,
    ensures
        match r {
            Some(body) => {
                &&& old(src).remaining().len() >= width
                &&& body@ == old(src).remaining().take(width as int)
                &&& final(src).remaining() == old(src).remaining().skip(width as int)
                &&& final(stats).read() == old(stats).read() + width
                &&& final(stats).discarded() == old(stats).discarded()
            },
            None => {
                &&& old(src).remaining().len() < width
                &&& final(src).remaining() == Seq::<u8>::empty()
                &&& final(stats).read() == old(stats).read() + old(src).remaining().len()
                &&& final(stats).discarded() == old(stats).discarded() + old(
                    src,
                ).remaining().len()
            },
        },
{
    let body = src.take(width);
    stats.read = stats.read + body.len();
    if body.len() < width {
        stats.discarded = stats.discarded + body.len();
        assert(src.remaining() =~= Seq::<u8>::empty());
        None
    } else {
        Some(body)
    }
}

/// Reads the tag byte of a value, if the input has not ended.
fn read_tag(src: &mut Cursor, stats: &mut DecodeStats) -> (r: Option<u8>)
    requires
        old(src).remaining().len() > 0 ==> old(stats).read() + 1 <= usize::MAX,
    ensures
        final(stats).discarded() == old(stats).discarded(),
        match r {
            Some(tag) => {
                &&& old(src).remaining().len() > 0
                &&& tag == old(src).remaining()[0]
                &&& final(src).remaining() == old(src).remaining().skip(1)
                &&& final(stats).read() == old(stats).read() + 1
            },
            None => {
                &&& old(src).remaining().len() == 0
                &&& final(src).remaining() == old(src).remaining()
                &&& final(stats).read() == old(stats).read()
            },
        },
{
    let first = src.take(1);
    if first.len() == 0 {
        assert(src.remaining() =~= old(src).remaining());
        None
    } else {
        stats.read = stats.read + 1;
        Some(first[0])
    }
}

/// The unsigned integer in two big-endian bytes.
pub fn value_be16(body: &[u8]) -> (v: u16)
    requires
        body@.len() == 2,
    ensures
        v == be16_value(body@),
{
    0x100 * (body[0] as u16) + body[1] as u16
}

/// The unsigned integer in eight big-endian bytes.
pub fn value_be64(body: &[u8]) -> (v: u64)
    requires
        body@.len() == 8,
    ensures
        v == be64_value(body@),
{
    let mut n: u64 = 0;
    let mut i: usize = 0;
    while i < 8
        invariant
            i <= 8,
            body@.len() == 8,
            i == 0 ==> n == 0,
            i == 1 ==> n == body@[0],
            i == 2 ==> n == 0x100 * body@[0] + body@[1],
            i == 3 ==> n == 0x1_0000 * body@[0] + 0x100 * body@[1] + body@[2],
            i == 4 ==> n == 0x100_0000 * body@[0] + 0x1_0000 * body@[1] + 0x100 * body@[2]
                + body@[3],
            i == 5 ==> n == 0x1_0000_0000 * body@[0] + 0x100_0000 * body@[1] + 0x1_0000 * body@[2]
                + 0x100 * body@[3] + body@[4],
            i == 6 ==> n == 0x100_0000_0000 * body@[0] + 0x1_0000_0000 * body@[1] + 0x100_0000
                * body@[2] + 0x1_0000 * body@[3] + 0x100 * body@[4] + body@[5],
            i == 7 ==> n == 0x1_0000_0000_0000 * body@[0] + 0x100_0000_0000 * body@[1]
                + 0x1_0000_0000 * body@[2] + 0x100_0000 * body@[3] + 0x1_0000 * body@[4] + 0x100
                * body@[5] + body@[6],
            i == 8 ==> n == be64_value(body@),
        decreases 8 - i,
    {
        n = 0x100 * n + body[i] as u64;
        i = i + 1;
    }
    n
}

impl Decode for u64 {
    type Model = u64;

    open spec fn model(&self) -> u64 {
        *self
    }

    open spec fn decoding(s: Seq<u8>) -> Decoding<u64> {
        u64_decoding(s)
    }

    fn decode_stats(src: &mut Cursor, stats: &mut DecodeStats) -> (r: Result<u64, DecodeError>) {
        let ghost input = src.remaining();
        let tag = match read_tag(src, stats) {
            None => {
                assert(src.remaining() =~= input.skip(0));
                return Err(DecodeError::EOF);
            },
            Some(tag) => tag,
        };
        if tag < 0xFD {
            Ok(tag as u64)
        } else if tag == 0xFD {
            match read_body(src, stats, 2) {
                None => {
                    assert(src.remaining() =~= input.skip(input.len() as int));
                    Err(DecodeError::PartialRead)
                },
                Some(body) => {
                    proof {
                        assert(body@ =~= input.subrange(1, 3));
                        assert(src.remaining() =~= input.skip(3));
                    }
                    Ok(value_be16(body) as u64)
                },
            }
        } else if tag == 0xFE {
            match read_body(src, stats, 8) {
                None => {
                    assert(src.remaining() =~= input.skip(input.len() as int));
                    Err(DecodeError::PartialRead)
                },
                Some(body) => {
                    proof {
                        assert(body@ =~= input.subrange(1, 9));
                        assert(src.remaining() =~= input.skip(9));
                    }
                    Ok(value_be64(body))
                },
            }
        } else {
            Err(DecodeError::Null)
        }
    }
}

impl Decode for i64 {
    type Model = i64;

    open spec fn model(&self) -> i64 {
        *self
    }

    open spec fn decoding(s: Seq<u8>) -> Decoding<i64> {
        i64_decoding(s)
    }

    fn decode_stats(src: &mut Cursor, stats: &mut DecodeStats) -> (r: Result<i64, DecodeError>) {
        let ghost input = src.remaining();
        let tag = match read_tag(src, stats) {
            None => {
                assert(src.remaining() =~= input.skip(0));
                return Err(DecodeError::EOF);
            },
            Some(tag) => tag,
        };
        if tag != 0x80 && tag != 0x81 {
            if tag < 0x80 {
                Ok(tag as i64)
            } else {
                Ok(tag as i64 - 0x100)
            }
        } else if tag == 0x81 {
            match read_body(src, stats, 2) {
                None => {
                    assert(src.remaining() =~= input.skip(input.len() as int));
                    Err(DecodeError::PartialRead)
                },
                Some(body) => {
                    proof {
                        assert(body@ =~= input.subrange(1, 3));
                        assert(src.remaining() =~= input.skip(3));
                    }
                    let v = value_be16(body);
                    if v < 0x8000 {
                        Ok(v as i64)
                    } else {
                        Ok(v as i64 - 0x10000)
                    }
                },
            }
        } else {
            match read_body(src, stats, 8) {
                None => {
                    assert(src.remaining() =~= input.skip(input.len() as int));
                    Err(DecodeError::PartialRead)
                },
                Some(body) => {
                    proof {
                        assert(body@ =~= input.subrange(1, 9));
                        assert(src.remaining() =~= input.skip(9));
                    }
                    let v = value_be64(body);
                    if v < 0x8000_0000_0000_0000 {
                        Ok(v as i64)
                    } else {
                        Ok((v - 0x8000_0000_0000_0000) as i64 + i64::MIN)
                    }
                },
            }
        }
    }
}

impl Decode for Option<u64> {
    type Model = Option<u64>;

    open spec fn model(&self) -> Option<u64> {
        *self
    }

    open spec fn decoding(s: Seq<u8>) -> Decoding<Option<u64>> {
        opt_u64_decoding(s)
    }

    fn decode_stats(src: &mut Cursor, stats: &mut DecodeStats) -> (r: Result<
        Option<u64>,
        DecodeError,
    >) {
        match u64::decode_stats(src, stats) {
            Ok(n) => Ok(Some(n)),
            Err(DecodeError::Null) => Ok(None),
            Err(e) => Err(e),
        }
    }
}

impl Decode for Vec<u8> {
    type Model = Seq<u8>;

    open spec fn model(&self) -> Seq<u8> {
        self@
    }

    open spec fn decoding(s: Seq<u8>) -> Decoding<Seq<u8>> {
        bytes_decoding(s)
    }

    fn decode_stats(src: &mut Cursor, stats: &mut DecodeStats) -> (r: Result<
        Vec<u8>,
        DecodeError,
    >) {
        let ghost input = src.remaining();
        let start = stats.read;
        let n = match u64::decode_stats(src, stats) {
            Err(e) => {
                return Err(e);
            },
            Ok(n) => n,
        };
        let ghost head = u64_decoding(input).read;
        let left = src.remaining_len();
        if n <= left as u64 {
            let body = src.take(n as usize);
            stats.read = stats.read + body.len();
            proof {
                assert(src.remaining() =~= input.skip(head + n));
            }
            Ok(slice_to_vec(body))
        } else {
            let body = src.take(left);
            stats.read = stats.read + body.len();
            stats.discarded = stats.discarded + (stats.read - start);
            proof {
                assert(src.remaining() =~= input.skip(input.len() as int));
            }
            Err(DecodeError::PartialRead)
        }
    }
}

/// Replays the head of a stream over `data`. Hands back whether there was
/// a record: `false` when the input ends in front of a key.
fn replay_record(src: &mut Cursor, stats: &mut DecodeStats, data: &mut DataMap) -> (r: Result<
    bool,
    DecodeError,
>)
    requires
        match first_record(map_model(old(data)@), old(src).remaining()) {
            Step::End => true,
            Step::Fail { read, discarded, .. } => old(stats).read() + read <= usize::MAX && old(
                stats,
            ).discarded() + discarded <= usize::MAX,
            Step::Apply { read, discarded, .. } => old(stats).read() + read <= usize::MAX && old(
                stats,
            ).discarded() + discarded <= usize::MAX,
        },
    ensures
        match first_record(map_model(old(data)@), old(src).remaining()) {
            Step::End => {
                &&& r == Ok::<bool, DecodeError>(false)
                &&& final(src).remaining() == old(src).remaining()
                &&& final(stats).read() == old(stats).read()
                &&& final(stats).discarded() == old(stats).discarded()
                &&& final(data)@ == old(data)@
            },
            Step::Fail { error, read, discarded } => {
                &&& r == Err::<bool, DecodeError>(error)
                &&& final(src).remaining() == old(src).remaining().skip(read as int)
                &&& final(stats).read() == old(stats).read() + read
                &&& final(stats).discarded() == old(stats).discarded() + discarded
            },
            Step::Apply { index, read, discarded } => {
                &&& r == Ok::<bool, DecodeError>(true)
                &&& final(src).remaining() == old(src).remaining().skip(read as int)
                &&& final(stats).read() == old(stats).read() + read
                &&& final(stats).discarded() == old(stats).discarded() + discarded
                &&& map_model(final(data)@) == index
            },
        },
{
    let ghost here = src.remaining();
    let ghost m = map_model(data@);
    let ghost k = i64_decoding(here);
    let start = stats.read;
    let key = match i64::decode_stats(src, stats) {
        Err(DecodeError::EOF) => {
            assert(here.skip(0) =~= here);
            return Ok(false);
        },
        Err(e) => {
            return Err(e);
        },
        Ok(key) => key,
    };
    let keysize = stats.read - start;
    let ghost after_key = src.remaining();
    let ghost v = bytes_decoding(after_key);
    proof {
        assert(after_key.skip(v.read as int) =~= here.skip((k.read + v.read) as int));
    }
    match Vec::<u8>::decode_stats(src, stats) {
        Err(DecodeError::Null) => {
            stats.discarded = stats.discarded + keysize + 1;
            match index_remove(data, key) {
                Some(value) => {
                    stats.discarded = stats.discarded + keysize + bytes_encode_size(
                        value.as_slice(),
                    );
                },
                None => (),
            }
            Ok(true)
        },
        Err(DecodeError::EOF) => {
            assert(after_key.skip(0) =~= after_key);
            Err(DecodeError::PartialRead)
        },
        Err(e) => Err(e),
        Ok(value) => {
            match index_insert(data, key, value) {
                Some(value) => {
                    stats.discarded = stats.discarded + keysize + bytes_encode_size(
                        value.as_slice(),
                    );
                },
                None => (),
            }
            Ok(true)
        },
    }
}

impl Decode for DataMap {
    type Model = Map<i64, Seq<u8>>;

    open spec fn model(&self) -> Map<i64, Seq<u8>> {
        map_model(self@)
    }

    open spec fn decoding(s: Seq<u8>) -> Decoding<Map<i64, Seq<u8>>> {
        map_decoding(s)
    }

    fn decode_stats(src: &mut Cursor, stats: &mut DecodeStats) -> (r: Result<
        DataMap,
        DecodeError,
    >) {
        let ghost input = src.remaining();
        let ghost whole = map_decoding(input);
        let ghost mut pulled: nat = 0;
        let ghost mut wasted: nat = 0;
        let mut data: DataMap = BTreeMap::new();
        proof {
            assert(map_model(data@) =~= Map::<i64, Seq<u8>>::empty());
            assert(src.remaining() =~= input.skip(0));
        }
        loop
            invariant
                input == old(src).remaining(),
                whole == map_decoding(input),
                has_room(*old(stats), whole),
                pulled <= input.len(),
                src.remaining() == input.skip(pulled as int),
                stats.read() == old(stats).read() + pulled,
                stats.discarded() == old(stats).discarded() + wasted,
                whole == and_then(pulled, wasted, replay(map_model(data@), src.remaining())),
            decreases src.remaining().len(),
        {
            let ghost here = src.remaining();
            let ghost step = first_record(map_model(data@), here);
            proof {
                reveal(replay);
                lemma_first_record_read(map_model(data@), here);
            }
            match replay_record(src, stats, &mut data) {
                Err(e) => {
                    proof {
                        let read = step->Fail_read;
                        assert(here.skip(read as int) =~= input.skip((pulled + read) as int));
                    }
                    return Err(e);
                },
                Ok(false) => {
                    return Ok(data);
                },
                Ok(true) => {
                    proof {
                        let read = step->Apply_read;
                        assert(here.skip(read as int) =~= input.skip((pulled + read) as int));
                        pulled = pulled + read;
                        wasted = wasted + step->Apply_discarded;
                    }
                },
            }
        }
    }
}

} // verus!

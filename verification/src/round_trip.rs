//! What decoding makes of encoded values: every encoding decodes to the
//! value it came from, and ends where the next value begins.

use vstd::prelude::*;

use crate::decode::{
    be16_value, be64_value, bytes_decoding, i64_decoding, opt_u64_decoding, u64_decoding,
    DecodeError, Decoding,
};
use crate::encode::{
    be16, be64, bytes_encoding, i64_encoding, lemma_i64_encoding_len, lemma_u64_encoding_len,
    opt_u64_encoding, twos_complement, u64_encoding, word_modulus,
};

verus! {

/// The decoding that yields `value` from `read` bytes and wastes none.
pub open spec fn yields<T>(value: T, read: nat) -> Decoding<T> {
    Decoding { result: Ok(value), read, discarded: 0 }
}

/// Two big-endian bytes stand for the number they were made from.
pub proof fn lemma_be16_round_trip(v: int)
    requires
        0 <= v < 0x10000,
    ensures
        be16_value(be16(v)) == v,
{
}

/// Eight big-endian bytes stand for the number they were made from.
pub proof fn lemma_be64_round_trip(v: int)
    requires
        0 <= v < word_modulus(),
    ensures
        be64_value(be64(v)) == v,
{
    let b = be64(v);
    let q1 = v / 0x100;
    let q2 = v / 0x1_0000;
    let q3 = v / 0x100_0000;
    let q4 = v / 0x1_0000_0000;
    let q5 = v / 0x100_0000_0000;
    let q6 = v / 0x1_0000_0000_0000;
    let q7 = v / 0x100_0000_0000_0000;
    assert(q2 == q1 / 0x100);
    assert(q3 == q2 / 0x100);
    assert(q4 == q3 / 0x100);
    assert(q5 == q4 / 0x100);
    assert(q6 == q5 / 0x100);
    assert(q7 == q6 / 0x100);
    assert(q7 < 0x100);
}

/// Decoding the encoding of an unsigned integer gives that integer back and
/// stops at the end of the encoding, whatever follows it.
pub proof fn lemma_u64_round_trip(n: u64, rest: Seq<u8>)
    ensures
        u64_decoding(u64_encoding(n) + rest) == yields(n, u64_encoding(n).len()),
{
    let s = u64_encoding(n) + rest;
    lemma_u64_encoding_len(n);
    if n < 0xFD {
        assert(s[0] == n as u8);
    } else if n < 0x10000 {
        assert(s[0] == 0xFD);
        assert(s.subrange(1, 3) =~= be16(n as int));
        lemma_be16_round_trip(n as int);
    } else {
        assert(s[0] == 0xFE);
        assert(s.subrange(1, 9) =~= be64(n as int));
        lemma_be64_round_trip(n as int);
    }
}

/// Decoding the encoding of a signed integer gives that integer back and
/// stops at the end of the encoding, whatever follows it.
pub proof fn lemma_i64_round_trip(n: i64, rest: Seq<u8>)
    ensures
        i64_decoding(i64_encoding(n) + rest) == yields(n, i64_encoding(n).len()),
{
    let s = i64_encoding(n) + rest;
    lemma_i64_encoding_len(n);
    if -0x7F < n < 0x80 {
        assert(s[0] == twos_complement(n as int, 0x100) as u8);
    } else if -0x8000 <= n < 0x8000 {
        let v = twos_complement(n as int, 0x10000);
        assert(s[0] == 0x81);
        assert(s.subrange(1, 3) =~= be16(v));
        lemma_be16_round_trip(v);
    } else {
        let v = twos_complement(n as int, word_modulus());
        assert(s[0] == 0x80);
        assert(s.subrange(1, 9) =~= be64(v));
        lemma_be64_round_trip(v);
    }
}

/// Decoding the encoding of an optional unsigned integer gives it back and
/// stops at the end of the encoding, whatever follows it.
pub proof fn lemma_opt_u64_round_trip(v: Option<u64>, rest: Seq<u8>)
    ensures
        opt_u64_decoding(opt_u64_encoding(v) + rest) == yields(v, opt_u64_encoding(v).len()),
{
    match v {
        None => {
            let s = opt_u64_encoding(v) + rest;
            assert(s[0] == 0xFF);
        },
        Some(n) => {
            lemma_u64_round_trip(n, rest);
        },
    }
}

/// Decoding the encoding of a byte string gives that string back and stops
/// at the end of the encoding, whatever follows it.
pub proof fn lemma_bytes_round_trip(v: Seq<u8>, rest: Seq<u8>)
    requires
        v.len() <= u64::MAX,
    ensures
        bytes_decoding(bytes_encoding(v) + rest) == yields(v, bytes_encoding(v).len()),
{
    let n = v.len() as u64;
    let s = bytes_encoding(v) + rest;
    assert(s =~= u64_encoding(n) + (v + rest));
    lemma_u64_round_trip(n, v + rest);
    let head = u64_encoding(n).len();
    assert(s.skip(head as int) =~= v + rest);
    assert((v + rest).take(n as int) =~= v);
}

/// Two encoded values in a row decode to the two values, the second from
/// exactly what the first left, and nothing is left after the second.
pub proof fn lemma_u64_pair_delimited(a: u64, b: u64)
    ensures
        ({
            let s = u64_encoding(a) + u64_encoding(b);
            let first = u64_decoding(s);
            let second = u64_decoding(s.skip(first.read as int));
            &&& first.result == Ok::<u64, DecodeError>(a)
            &&& second.result == Ok::<u64, DecodeError>(b)
            &&& first.read + second.read == s.len()
        }),
{
    let s = u64_encoding(a) + u64_encoding(b);
    lemma_u64_round_trip(a, u64_encoding(b));
    assert(s.skip(u64_encoding(a).len() as int) =~= u64_encoding(b) + Seq::<u8>::empty());
    lemma_u64_round_trip(b, Seq::empty());
}

} // verus!

//! The parser of the text form of values.
//!
//! ```text
//! value  := number | string | identifier | array | object
//! array  := '[' (value (',' value)*)? ']'
//! object := '{' (string ':' value (',' string ':' value)*)? '}'
//! ```
//!
//! The parser reads tokens. The binary64 number that a token with a
//! fraction or an exponent stands for is taken from a list that the caller
//! supplies: one number for each such token, in order.

use vstd::prelude::*;
use vstd::string::StringExecFns;

use crate::f64_conv::Binary64;
use crate::json::{array_model, object_model, JSONParseError, JsonValue, ParseFailure, JSON};
use crate::json_order::{compare_text, text_sign};
use crate::json_tokens::{
    chars_of, digit, digits_end, is_exponent_mark, json_tokens, scan_digits,
    scan_string, string_closed, string_end, tokens_from, tokens_model, unescape_str, unescaped,
    Token,
};

verus! {

/// The number that the digits of `t` from `from` up to `to` stand for.
pub open spec fn digits_value(t: Seq<char>, from: int, to: int) -> nat
    decreases to - from,
{
    if to <= from {
        0
    } else {
        10 * digits_value(t, from, to - 1) + (t[to - 1] as u32 - 0x30) as nat
    }
}

/// The place of the first digit of a number: behind its minus sign, if it
/// has one.
pub open spec fn digits_start(t: Seq<char>) -> int {
    if t.len() > 0 && t[0] == '-' {
        1
    } else {
        0
    }
}

/// The integer that the text `t` stands for: digits, with a minus sign in
/// front or without, whose value is within sixty-four bits.
pub open spec fn int_literal(t: Seq<char>) -> Option<i64> {
    let start = digits_start(t);
    if start < t.len() && digits_end(t, start) == t.len() {
        let v = digits_value(t, start, t.len() as int);
        if start == 1 {
            if v <= 0x8000_0000_0000_0000 {
                Some((-v) as i64)
            } else {
                None
            }
        } else {
            if v < 0x8000_0000_0000_0000 {
                Some(v as i64)
            } else {
                None
            }
        }
    } else {
        None
    }
}

/// The place behind the digits that must stand at `i`, or none where no
/// digit stands there.
pub open spec fn some_digits(t: Seq<char>, i: int) -> Option<int> {
    if digits_end(t, i) > i {
        Some(digits_end(t, i))
    } else {
        None
    }
}

/// The place behind the fraction at `i`, if one stands there: a point and
/// at least one digit.
pub open spec fn fraction_end(t: Seq<char>, i: int) -> Option<int> {
    if 0 <= i < t.len() && t[i] == '.' {
        some_digits(t, i + 1)
    } else {
        Some(i)
    }
}

/// The place behind the exponent at `i`, if one stands there: an exponent
/// mark, a sign or none, and at least one digit.
pub open spec fn exponent_part_end(t: Seq<char>, i: int) -> Option<int> {
    if 0 <= i < t.len() && is_exponent_mark(t[i]) {
        if i + 1 < t.len() && (t[i + 1] == '+' || t[i + 1] == '-') {
            some_digits(t, i + 2)
        } else {
            some_digits(t, i + 1)
        }
    } else {
        Some(i)
    }
}

/// Whether the text `t` is a number with a fraction or an exponent: a minus
/// sign or none, digits, then a point and digits, then an exponent mark, a
/// sign or none, and digits; at least one of the last two parts is there.
pub open spec fn float_literal(t: Seq<char>) -> bool {
    match some_digits(t, digits_start(t)) {
        None => false,
        Some(k1) => match fraction_end(t, k1) {
            None => false,
            Some(k2) => match exponent_part_end(t, k2) {
                None => false,
                Some(k3) => k3 == t.len() && k3 > k1,
            },
        },
    }
}

/// Whether the text `t` is a whole string token: it begins with a double
/// quote, and the quote that closes it is its last character.
pub open spec fn string_literal(t: Seq<char>) -> bool {
    t.len() >= 2 && t[0] == '"' && string_closed(t, 1) && string_end(t, 1) == t.len()
}

/// The first place at or after `i` whose key is not below `key`.
pub open spec fn key_place(o: Seq<(Seq<char>, JsonValue)>, key: Seq<char>, i: int) -> int
    decreases o.len() - i,
{
    if 0 <= i < o.len() && text_sign(o[i].0, key) < 0 {
        key_place(o, key, i + 1)
    } else {
        i
    }
}

/// The entries `o` with `value` under `key`: in place of the entry with
/// that key, or else in front of the first entry with a greater key.
pub open spec fn object_put(
    o: Seq<(Seq<char>, JsonValue)>,
    key: Seq<char>,
    value: JsonValue,
) -> Seq<(Seq<char>, JsonValue)> {
    let p = key_place(o, key, 0);
    if 0 <= p < o.len() && text_sign(o[p].0, key) == 0 {
        o.update(p, (key, value))
    } else {
        o.insert(p, (key, value))
    }
}

/// Whether the keys of the entries ascend strictly: no key stands twice.
pub open spec fn object_keys_ascend(o: Seq<(Seq<char>, JsonValue)>) -> bool {
    forall|i: int, j: int| 0 <= i < j < o.len() ==> text_sign(o[i].0, o[j].0) < 0
}

/// Whether every object within a value holds its entries by ascending key,
/// each key once.
pub open spec fn well_formed(v: JsonValue) -> bool
    decreases v,
{
    match v {
        JsonValue::Array(a) => forall|i: int| 0 <= i < a.len() ==> well_formed(#[trigger] a[i]),
        JsonValue::Object(o) => object_keys_ascend(o) && forall|i: int|
            0 <= i < o.len() ==> well_formed((#[trigger] o[i]).1),
        _ => true,
    }
}

/// Whether every value of the entries is well formed.
pub open spec fn entries_well_formed(o: Seq<(Seq<char>, JsonValue)>) -> bool {
    object_keys_ascend(o) && forall|i: int| 0 <= i < o.len() ==> well_formed((#[trigger] o[i]).1)
}

/// The place of a key among ascending keys: every key in front of it is
/// below the key, and the one at the place is not.
pub proof fn lemma_key_place(o: Seq<(Seq<char>, JsonValue)>, key: Seq<char>, i: int)
    requires
        0 <= i <= o.len(),
    ensures
        i <= key_place(o, key, i) <= o.len(),
        forall|j: int| i <= j < key_place(o, key, i) ==> text_sign(o[j].0, key) < 0,
        key_place(o, key, i) < o.len() ==> text_sign(o[key_place(o, key, i)].0, key) >= 0,
    decreases o.len() - i,
{
    if i < o.len() && text_sign(o[i].0, key) < 0 {
        lemma_key_place(o, key, i + 1);
    }
}

/// Putting an entry into ascending entries leaves them ascending.
pub proof fn lemma_object_put_ascends(
    o: Seq<(Seq<char>, JsonValue)>,
    key: Seq<char>,
    value: JsonValue,
)
    requires
        entries_well_formed(o),
        well_formed(value),
    ensures
        entries_well_formed(object_put(o, key, value)),
{
    let p = key_place(o, key, 0);
    lemma_key_place(o, key, 0);
    let r = object_put(o, key, value);
    if p < o.len() && text_sign(o[p].0, key) == 0 {
        crate::json_order::lemma_text_sign_equal(o[p].0, key);
        assert forall|i: int, j: int| 0 <= i < j < r.len() implies text_sign(r[i].0, r[j].0)
            < 0 by {
            assert(r[i].0 == o[i].0 && r[j].0 == o[j].0);
        }
        assert forall|i: int| 0 <= i < r.len() implies well_formed((#[trigger] r[i]).1) by {
            if i != p {
                assert(r[i] == o[i]);
            }
        }
    } else {
        let k = vstd::utf8::encode_utf8(key);
        assert forall|i: int, j: int| 0 <= i < j < r.len() implies text_sign(r[i].0, r[j].0)
            < 0 by {
            if j < p {
                assert(r[i] == o[i] && r[j] == o[j]);
            } else if j == p {
                assert(r[i] == o[i]);
            } else if i < p {
                assert(r[i] == o[i] && r[j] == o[j - 1]);
            } else if i == p {
                assert(r[j] == o[j - 1]);
                let at = vstd::utf8::encode_utf8(o[p].0);
                let behind = vstd::utf8::encode_utf8(o[j - 1].0);
                crate::json_order::lemma_bytes_sign_mirrors(at, k, 0);
                if j - 1 > p {
                    assert(text_sign(o[p].0, o[j - 1].0) < 0);
                    crate::json_order::lemma_bytes_sign_chains(k, at, behind, 0);
                }
            } else {
                assert(r[i] == o[i - 1] && r[j] == o[j - 1]);
            }
        }
        assert forall|i: int| 0 <= i < r.len() implies well_formed((#[trigger] r[i]).1) by {
            if i < p {
                assert(r[i] == o[i]);
            } else if i > p {
                assert(r[i] == o[i - 1]);
            }
        }
    }
}

/// What the parser makes of the tokens from some place on: the value or
/// the failure, the place behind the value, and the number of binary64
/// numbers used up to there.
pub struct Parsed {
    pub result: Result<JsonValue, ParseFailure>,
    pub next: int,
    pub floats: int,
}

/// The outcome that is the value `v`, with the parser at token `next`.
pub open spec fn done(v: JsonValue, next: int, floats: int) -> Parsed {
    Parsed { result: Ok(v), next, floats }
}

/// The outcome that the tokens ended inside a value.
pub open spec fn ended(next: int, floats: int) -> Parsed {
    Parsed { result: Err(ParseFailure::EOF), next, floats }
}

/// The outcome that the token at `p` cannot stand there.
pub open spec fn unexpected(tokens: Seq<(Token, Seq<char>)>, p: int, floats: int) -> Parsed {
    Parsed { result: Err(ParseFailure::UnexpectedToken(tokens[p].1)), next: p, floats }
}

/// Whether the token at `p` is the punctuation `c`.
pub open spec fn is_punctuation(tokens: Seq<(Token, Seq<char>)>, p: int, c: char) -> bool {
    tokens[p].0 == Token::Punctuation && tokens[p].1 == seq![c]
}

/// What the parser makes of the value that begins at token `p`.
pub open spec fn parse_value(
    tokens: Seq<(Token, Seq<char>)>,
    p: int,
    floats: Seq<Binary64>,
    f: int,
) -> Parsed
    decreases tokens.len() - p, 0int,
{
    if p < 0 || p >= tokens.len() {
        ended(p, f)
    } else {
        let text = tokens[p].1;
        match tokens[p].0 {
            Token::Int => match int_literal(text) {
                Some(n) => done(JsonValue::Int(n), p + 1, f),
                None => unexpected(tokens, p, f),
            },
            Token::Float => if float_literal(text) && 0 <= f < floats.len() {
                done(JsonValue::Float(floats[f]), p + 1, f + 1)
            } else {
                unexpected(tokens, p, f)
            },
            Token::String => if string_literal(text) {
                done(JsonValue::String(unescaped(text)), p + 1, f)
            } else {
                unexpected(tokens, p, f)
            },
            Token::Identifier => if text == "null"@ {
                done(JsonValue::Null, p + 1, f)
            } else if text == "true"@ {
                done(JsonValue::Bool(true), p + 1, f)
            } else if text == "false"@ {
                done(JsonValue::Bool(false), p + 1, f)
            } else if text == "infinity"@ {
                done(JsonValue::Infinity, p + 1, f)
            } else {
                unexpected(tokens, p, f)
            },
            Token::Punctuation => if text == seq!['['] {
                parse_array(tokens, p + 1, floats, f)
            } else if text == seq!['{'] {
                parse_object(tokens, p + 1, floats, f)
            } else {
                unexpected(tokens, p, f)
            },
        }
    }
}

/// What the parser makes of the array whose opening bracket stands in front
/// of token `p`.
pub open spec fn parse_array(
    tokens: Seq<(Token, Seq<char>)>,
    p: int,
    floats: Seq<Binary64>,
    f: int,
) -> Parsed
    decreases tokens.len() - p, 2int,
{
    if p < 0 || p >= tokens.len() {
        ended(p, f)
    } else if is_punctuation(tokens, p, ']') {
        done(JsonValue::Array(Seq::empty()), p + 1, f)
    } else {
        parse_elements(tokens, p, floats, f, Seq::empty())
    }
}

/// What the parser makes of the rest of an array from the element at token
/// `p` on, with the elements `acc` in front of it. A value takes at least
/// one token.
pub open spec fn parse_elements(
    tokens: Seq<(Token, Seq<char>)>,
    p: int,
    floats: Seq<Binary64>,
    f: int,
    acc: Seq<JsonValue>,
) -> Parsed
    decreases tokens.len() - p, 1int,
{
    let v = parse_value(tokens, p, floats, f);
    match v.result {
        Err(_) => v,
        Ok(x) => {
            let q = v.next;
            if q <= p || q >= tokens.len() {
                ended(q, v.floats)
            } else if is_punctuation(tokens, q, ']') {
                done(JsonValue::Array(acc.push(x)), q + 1, v.floats)
            } else if is_punctuation(tokens, q, ',') {
                parse_elements(tokens, q + 1, floats, v.floats, acc.push(x))
            } else {
                unexpected(tokens, q, v.floats)
            }
        },
    }
}

/// What the parser makes of the object whose opening brace stands in front
/// of token `p`.
pub open spec fn parse_object(
    tokens: Seq<(Token, Seq<char>)>,
    p: int,
    floats: Seq<Binary64>,
    f: int,
) -> Parsed
    decreases tokens.len() - p, 2int,
{
    if p < 0 || p >= tokens.len() {
        ended(p, f)
    } else if is_punctuation(tokens, p, '}') {
        done(JsonValue::Object(Seq::empty()), p + 1, f)
    } else {
        parse_entries(tokens, p, floats, f, Seq::empty())
    }
}

/// What the parser makes of the rest of an object from the entry at token
/// `p` on, with the entries `acc` in front of it: a key, a colon and a
/// value, and then a comma and more, or the closing brace. Of two entries
/// with the same key the later stays.
pub open spec fn parse_entries(
    tokens: Seq<(Token, Seq<char>)>,
    p: int,
    floats: Seq<Binary64>,
    f: int,
    acc: Seq<(Seq<char>, JsonValue)>,
) -> Parsed
    decreases tokens.len() - p, 1int,
{
    if p < 0 || p >= tokens.len() {
        ended(p, f)
    } else if tokens[p].0 != Token::String || !string_literal(tokens[p].1) {
        unexpected(tokens, p, f)
    } else if p + 1 >= tokens.len() {
        ended(p + 1, f)
    } else if !is_punctuation(tokens, p + 1, ':') {
        unexpected(tokens, p + 1, f)
    } else {
        let v = parse_value(tokens, p + 2, floats, f);
        match v.result {
            Err(_) => v,
            Ok(x) => {
                let q = v.next;
                let entries = object_put(acc, unescaped(tokens[p].1), x);
                if q <= p || q >= tokens.len() {
                    ended(q, v.floats)
                } else if is_punctuation(tokens, q, '}') {
                    done(JsonValue::Object(entries), q + 1, v.floats)
                } else if is_punctuation(tokens, q, ',') {
                    parse_entries(tokens, q + 1, floats, v.floats, entries)
                } else {
                    unexpected(tokens, q, v.floats)
                }
            },
        }
    }
}

/// A value takes at least one token, and no more tokens or numbers than
/// there are.
pub proof fn lemma_parse_progress(
    tokens: Seq<(Token, Seq<char>)>,
    p: int,
    floats: Seq<Binary64>,
    f: int,
)
    requires
        0 <= p,
        0 <= f <= floats.len(),
    ensures
        parse_value(tokens, p, floats, f).result is Ok ==> p < parse_value(
            tokens,
            p,
            floats,
            f,
        ).next <= tokens.len() && f <= parse_value(tokens, p, floats, f).floats <= floats.len(),
        parse_array(tokens, p, floats, f).result is Ok ==> p < parse_array(
            tokens,
            p,
            floats,
            f,
        ).next <= tokens.len() && f <= parse_array(tokens, p, floats, f).floats <= floats.len(),
        parse_object(tokens, p, floats, f).result is Ok ==> p < parse_object(
            tokens,
            p,
            floats,
            f,
        ).next <= tokens.len() && f <= parse_object(tokens, p, floats, f).floats <= floats.len(),
    decreases tokens.len() - p, 3int,
{
    if p < tokens.len() {
        lemma_parse_progress(tokens, p + 1, floats, f);
        lemma_elements_progress(tokens, p, floats, f, Seq::empty());
        lemma_entries_progress(tokens, p, floats, f, Seq::empty());
    }
}

/// The rest of an array takes at least one token, and no more tokens or
/// numbers than there are.
pub proof fn lemma_elements_progress(
    tokens: Seq<(Token, Seq<char>)>,
    p: int,
    floats: Seq<Binary64>,
    f: int,
    acc: Seq<JsonValue>,
)
    requires
        0 <= p,
        0 <= f <= floats.len(),
    ensures
        parse_elements(tokens, p, floats, f, acc).result is Ok ==> p < parse_elements(
            tokens,
            p,
            floats,
            f,
            acc,
        ).next <= tokens.len() && f <= parse_elements(tokens, p, floats, f, acc).floats
            <= floats.len(),
    decreases tokens.len() - p, 2int,
{
    if p < tokens.len() {
        if parse_value(tokens, p, floats, f).result is Ok {
            lemma_value_progress(tokens, p, floats, f);
            let v = parse_value(tokens, p, floats, f);
            if v.next < tokens.len() && is_punctuation(tokens, v.next, ',') {
                lemma_elements_progress(tokens, v.next + 1, floats, v.floats, acc.push(
                    v.result->Ok_0,
                ));
            }
        }
    }
}

/// The rest of an object takes at least one token, and no more tokens or
/// numbers than there are.
pub proof fn lemma_entries_progress(
    tokens: Seq<(Token, Seq<char>)>,
    p: int,
    floats: Seq<Binary64>,
    f: int,
    acc: Seq<(Seq<char>, JsonValue)>,
)
    requires
        0 <= p,
        0 <= f <= floats.len(),
    ensures
        parse_entries(tokens, p, floats, f, acc).result is Ok ==> p < parse_entries(
            tokens,
            p,
            floats,
            f,
            acc,
        ).next <= tokens.len() && f <= parse_entries(tokens, p, floats, f, acc).floats
            <= floats.len(),
    decreases tokens.len() - p, 2int,
{
    if p + 2 < tokens.len() {
        if parse_value(tokens, p + 2, floats, f).result is Ok {
            lemma_value_progress(tokens, p + 2, floats, f);
            let v = parse_value(tokens, p + 2, floats, f);
            if v.next < tokens.len() && is_punctuation(tokens, v.next, ',') {
                lemma_entries_progress(
                    tokens,
                    v.next + 1,
                    floats,
                    v.floats,
                    object_put(acc, unescaped(tokens[p].1), v.result->Ok_0),
                );
            }
        }
    }
}

/// A value takes at least one token, and no more tokens or numbers than
/// there are.
pub proof fn lemma_value_progress(
    tokens: Seq<(Token, Seq<char>)>,
    p: int,
    floats: Seq<Binary64>,
    f: int,
)
    requires
        0 <= p,
        0 <= f <= floats.len(),
    ensures
        parse_value(tokens, p, floats, f).result is Ok ==> p < parse_value(
            tokens,
            p,
            floats,
            f,
        ).next <= tokens.len() && f <= parse_value(tokens, p, floats, f).floats <= floats.len(),
    decreases tokens.len() - p, 1int,
{
    if p < tokens.len() {
        lemma_parse_progress(tokens, p + 1, floats, f);
    }
}

/// Every value that the parser gives is well formed: its objects hold
/// their entries by ascending key, each key once.
pub proof fn lemma_parse_well_formed(
    tokens: Seq<(Token, Seq<char>)>,
    p: int,
    floats: Seq<Binary64>,
    f: int,
)
    ensures
        parse_value(tokens, p, floats, f).result matches Ok(v) ==> well_formed(v),
    decreases tokens.len() - p, 0int,
{
    if 0 <= p < tokens.len() {
        let text = tokens[p].1;
        if tokens[p].0 == Token::Punctuation {
            if text == seq!['['] {
                if p + 1 < tokens.len() && !is_punctuation(tokens, p + 1, ']') {
                    lemma_elements_well_formed(tokens, p + 1, floats, f, Seq::empty());
                }
            } else if text == seq!['{'] {
                if p + 1 < tokens.len() && !is_punctuation(tokens, p + 1, '}') {
                    lemma_entries_well_formed(tokens, p + 1, floats, f, Seq::empty());
                }
            }
        }
    }
}

/// The rest of an array is well formed with the elements in front of it.
pub proof fn lemma_elements_well_formed(
    tokens: Seq<(Token, Seq<char>)>,
    p: int,
    floats: Seq<Binary64>,
    f: int,
    acc: Seq<JsonValue>,
)
    requires
        forall|i: int| 0 <= i < acc.len() ==> well_formed(#[trigger] acc[i]),
    ensures
        parse_elements(tokens, p, floats, f, acc).result matches Ok(v) ==> well_formed(v),
    decreases tokens.len() - p, 1int,
{
    let v = parse_value(tokens, p, floats, f);
    lemma_parse_well_formed(tokens, p, floats, f);
    if let Ok(x) = v.result {
        let q = v.next;
        let more = acc.push(x);
        assert forall|i: int| 0 <= i < more.len() implies well_formed(#[trigger] more[i]) by {
            if i < acc.len() {
                assert(more[i] == acc[i]);
            }
        }
        if p < q < tokens.len() && !is_punctuation(tokens, q, ']') && is_punctuation(
            tokens,
            q,
            ',',
        ) {
            lemma_elements_well_formed(tokens, q + 1, floats, v.floats, more);
        }
    }
}

/// The rest of an object is well formed with the entries in front of it.
pub proof fn lemma_entries_well_formed(
    tokens: Seq<(Token, Seq<char>)>,
    p: int,
    floats: Seq<Binary64>,
    f: int,
    acc: Seq<(Seq<char>, JsonValue)>,
)
    requires
        entries_well_formed(acc),
    ensures
        parse_entries(tokens, p, floats, f, acc).result matches Ok(v) ==> well_formed(v),
    decreases tokens.len() - p, 1int,
{
    if 0 <= p && p + 1 < tokens.len() {
        let v = parse_value(tokens, p + 2, floats, f);
        lemma_parse_well_formed(tokens, p + 2, floats, f);
        if let Ok(x) = v.result {
            let q = v.next;
            let entries = object_put(acc, unescaped(tokens[p].1), x);
            lemma_object_put_ascends(acc, unescaped(tokens[p].1), x);
            if p < q < tokens.len() && !is_punctuation(tokens, q, '}') && is_punctuation(
                tokens,
                q,
                ',',
            ) {
                lemma_entries_well_formed(tokens, q + 1, floats, v.floats, entries);
            }
        }
    }
}

/// A longer run of digits stands for no smaller a number.
pub proof fn lemma_digits_value_grows(t: Seq<char>, from: int, a: int, b: int)
    requires
        from <= a <= b,
    ensures
        digits_value(t, from, a) <= digits_value(t, from, b),
    decreases b - a,
{
    if a < b {
        lemma_digits_value_grows(t, from, a, b - 1);
    }
}

/// The integer that a text stands for, if it is one within sixty-four
/// bits.
pub fn parse_int(v: &Vec<char>) -> (r: Option<i64>)
    ensures
        r == int_literal(v@),
{
    let n = v.len();
    let start: usize = if n > 0 && v[0] == '-' {
        1
    } else {
        0
    };
    if start >= n {
        return None;
    }
    let limit: u64 = if start == 1 {
        0x8000_0000_0000_0000
    } else {
        0x7FFF_FFFF_FFFF_FFFF
    };
    let mut acc: u64 = 0;
    let mut i: usize = start;
    while i < n
        invariant
            n == v@.len(),
            start == digits_start(v@),
            start <= i <= n,
            digits_end(v@, start as int) == digits_end(v@, i as int),
            acc == digits_value(v@, start as int, i as int),
            acc <= limit,
            limit == (if start == 1 {
                0x8000_0000_0000_0000u64
            } else {
                0x7FFF_FFFF_FFFF_FFFFu64
            }),
        decreases n - i,
    {
        let c = v[i];
        if !digit(c) {
            return None;
        }
        let d: u64 = (c as u32 - 0x30) as u64;
        if acc > (limit - d) / 10 {
            proof {
                lemma_digits_value_grows(v@, start as int, i + 1, n as int);
            }
            return None;
        }
        acc = acc * 10 + d;
        i = i + 1;
    }
    if start == 1 {
        if acc == 0x8000_0000_0000_0000 {
            Some(i64::MIN)
        } else {
            Some(-(acc as i64))
        }
    } else {
        Some(acc as i64)
    }
}

/// The place behind the digits that must stand at `i`.
fn scan_some_digits(v: &Vec<char>, i: usize) -> (r: Option<usize>)
    requires
        i <= v.len(),
    ensures
        match r {
            Some(k) => some_digits(v@, i as int) == Some(k as int) && i < k <= v.len(),
            None => some_digits(v@, i as int) is None,
        },
{
    let k = scan_digits(v, i);
    if k > i {
        Some(k)
    } else {
        None
    }
}

/// Whether a text is a number with a fraction or an exponent.
pub fn is_float_literal(v: &Vec<char>) -> (r: bool)
    ensures
        r == float_literal(v@),
{
    let n = v.len();
    let start: usize = if n > 0 && v[0] == '-' {
        1
    } else {
        0
    };
    let k1 = match scan_some_digits(v, start) {
        None => {
            return false;
        },
        Some(k) => k,
    };
    let k2 = if k1 < n && v[k1] == '.' {
        match scan_some_digits(v, k1 + 1) {
            None => {
                return false;
            },
            Some(k) => k,
        }
    } else {
        k1
    };
    let k3 = if k2 < n && (v[k2] == 'e' || v[k2] == 'E') {
        let digits = if k2 + 1 < n && (v[k2 + 1] == '+' || v[k2 + 1] == '-') {
            k2 + 2
        } else {
            k2 + 1
        };
        match scan_some_digits(v, digits) {
            None => {
                return false;
            },
            Some(k) => k,
        }
    } else {
        k2
    };
    k3 == n && k3 > k1
}

/// Whether a text is a whole string token.
pub fn is_string_literal(v: &Vec<char>) -> (r: bool)
    ensures
        r == string_literal(v@),
{
    if v.len() < 2 || v[0] != '"' {
        return false;
    }
    let (end, closed) = scan_string(v, 1);
    closed && end == v.len()
}

/// Whether a text is that of a literal.
fn same_text(a: &String, literal: &str) -> (r: bool)
    ensures
        r == (a@ == literal@),
{
    let l = String::from_str(literal);
    *a == l
}

/// Whether a token is the punctuation `c`.
fn punctuation_is(token: &(Token, String), c: char) -> (r: bool)
    ensures
        r == (token.0 == Token::Punctuation && token.1@ == seq![c]),
{
    match token.0 {
        Token::Punctuation => {
            let v = chars_of(token.1.as_str());
            let r = v.len() == 1 && v[0] == c;
            assert(r == (v@ =~= seq![c]));
            r
        },
        _ => false,
    }
}

/// The failure that a token cannot stand where it stands.
fn unexpected_token(token: &(Token, String)) -> (e: JSONParseError)
    ensures
        e@ == ParseFailure::UnexpectedToken(token.1@),
{
    JSONParseError::UnexpectedToken(token.1.clone())
}

/// Puts `value` under `key` into the entries of an object, which stay in
/// ascending key order.
pub fn put_entry(entries: &mut Vec<(String, JSON)>, key: String, value: JSON)
    ensures
        object_model(final(entries)@) == object_put(object_model(old(entries)@), key@, value@),
{
    let ghost before = object_model(entries@);
    let mut p: usize = 0;
    let mut same = false;
    while p < entries.len()
        invariant_except_break
            !same,
        invariant
            p <= entries.len(),
            before == object_model(entries@),
            key_place(before, key@, 0) == key_place(before, key@, p as int),
        ensures
            p == key_place(before, key@, 0),
            same <==> (p < entries.len() && text_sign(before[p as int].0, key@) == 0),
        decreases entries.len() - p,
    {
        let c = compare_text(entries[p].0.as_str(), key.as_str());
        if c < 0 {
            p = p + 1;
        } else {
            same = c == 0;
            break ;
        }
    }
    if same {
        let _ = entries.remove(p);
        assert(object_model(entries@) =~= before.remove(p as int));
    }
    let ghost removed = object_model(entries@);
    entries.insert(p, (key, value));
    proof {
        assert(object_model(entries@) =~= removed.insert(p as int, (key@, value@)));
        if same {
            assert(before.remove(p as int).insert(p as int, (key@, value@)) =~= before.update(
                p as int,
                (key@, value@),
            ));
        }
    }
}

/// Parses the array whose opening bracket stands in front of the token at
/// `pos`, and leaves `pos` behind its closing bracket.
pub fn json_array(
    tokens: &Vec<(Token, String)>,
    pos: &mut usize,
    floats: &Vec<Binary64>,
    fpos: &mut usize,
) -> (r: Result<JSON, JSONParseError>)
    requires
        *old(pos) <= tokens.len(),
        *old(fpos) <= floats.len(),
    ensures
        parsed_as(
            parse_array(tokens_model(tokens@), *old(pos) as int, floats@, *old(fpos) as int),
            r,
            *final(pos),
            *final(fpos),
        ),
    decreases tokens.len() - *old(pos), 2int,
{
    let ghost tm = tokens_model(tokens@);
    let ghost whole = parse_array(tm, *pos as int, floats@, *fpos as int);
    let mut items: Vec<JSON> = Vec::new();
    if *pos >= tokens.len() {
        return Err(JSONParseError::EOF);
    }
    if punctuation_is(&tokens[*pos], ']') {
        *pos = *pos + 1;
        assert(array_model(items@) =~= Seq::<JsonValue>::empty());
        return Ok(JSON::Array(items));
    }
    assert(array_model(items@) =~= Seq::<JsonValue>::empty());
    loop
        invariant
            tm == tokens_model(tokens@),
            *pos <= tokens.len(),
            *fpos <= floats.len(),
            *old(pos) <= *pos,
            whole == parse_array(tm, *old(pos) as int, floats@, *old(fpos) as int),
            whole == parse_elements(tm, *pos as int, floats@, *fpos as int, array_model(items@)),
        decreases tokens.len() - *pos,
    {
        let ghost here = *pos as int;
        let ghost used = *fpos as int;
        let ghost acc = array_model(items@);
        proof {
            lemma_value_progress(tm, here, floats@, used);
        }
        let value = match json_value(tokens, pos, floats, fpos) {
            Err(e) => {
                return Err(e);
            },
            Ok(value) => value,
        };
        proof {
            assert(array_model(items@.push(value)) =~= acc.push(value@));
        }
        items.push(value);
        if *pos >= tokens.len() {
            return Err(JSONParseError::EOF);
        }
        if punctuation_is(&tokens[*pos], ']') {
            *pos = *pos + 1;
            return Ok(JSON::Array(items));
        } else if punctuation_is(&tokens[*pos], ',') {
            *pos = *pos + 1;
        } else {
            return Err(unexpected_token(&tokens[*pos]));
        }
    }
}

/// Parses the object whose opening brace stands in front of the token at
/// `pos`, and leaves `pos` behind its closing brace.
pub fn json_object(
    tokens: &Vec<(Token, String)>,
    pos: &mut usize,
    floats: &Vec<Binary64>,
    fpos: &mut usize,
) -> (r: Result<JSON, JSONParseError>)
    requires
        *old(pos) <= tokens.len(),
        *old(fpos) <= floats.len(),
    ensures
        parsed_as(
            parse_object(tokens_model(tokens@), *old(pos) as int, floats@, *old(fpos) as int),
            r,
            *final(pos),
            *final(fpos),
        ),
    decreases tokens.len() - *old(pos), 2int,
{
    let ghost tm = tokens_model(tokens@);
    let ghost whole = parse_object(tm, *pos as int, floats@, *fpos as int);
    let mut entries: Vec<(String, JSON)> = Vec::new();
    if *pos >= tokens.len() {
        return Err(JSONParseError::EOF);
    }
    if punctuation_is(&tokens[*pos], '}') {
        *pos = *pos + 1;
        assert(object_model(entries@) =~= Seq::<(Seq<char>, JsonValue)>::empty());
        return Ok(JSON::Object(entries));
    }
    assert(object_model(entries@) =~= Seq::<(Seq<char>, JsonValue)>::empty());
    loop
        invariant
            tm == tokens_model(tokens@),
            *pos <= tokens.len(),
            *fpos <= floats.len(),
            *old(pos) <= *pos,
            whole == parse_object(tm, *old(pos) as int, floats@, *old(fpos) as int),
            whole == parse_entries(tm, *pos as int, floats@, *fpos as int, object_model(entries@)),
        decreases tokens.len() - *pos,
    {
        let ghost here = *pos as int;
        let ghost used = *fpos as int;
        if *pos >= tokens.len() {
            return Err(JSONParseError::EOF);
        }
        let key_token = &tokens[*pos];
        let key_chars = chars_of(key_token.1.as_str());
        let is_key = match key_token.0 {
            Token::String => is_string_literal(&key_chars),
            _ => false,
        };
        if !is_key {
            return Err(unexpected_token(key_token));
        }
        let key = unescape_str(key_token.1.as_str());
        if *pos + 1 >= tokens.len() {
            return Err(JSONParseError::EOF);
        }
        if !punctuation_is(&tokens[*pos + 1], ':') {
            return Err(unexpected_token(&tokens[*pos + 1]));
        }
        *pos = *pos + 2;
        proof {
            lemma_value_progress(tm, here + 2, floats@, used);
        }
        let value = match json_value(tokens, pos, floats, fpos) {
            Err(e) => {
                return Err(e);
            },
            Ok(value) => value,
        };
        put_entry(&mut entries, key, value);
        if *pos >= tokens.len() {
            return Err(JSONParseError::EOF);
        }
        if punctuation_is(&tokens[*pos], '}') {
            *pos = *pos + 1;
            return Ok(JSON::Object(entries));
        } else if punctuation_is(&tokens[*pos], ',') {
            *pos = *pos + 1;
        } else {
            return Err(unexpected_token(&tokens[*pos]));
        }
    }
}

/// Whether the outcome `r`, with the parser at token `pos` and `fpos`
/// numbers used, is what `p` says.
pub open spec fn parsed_as(
    p: Parsed,
    r: Result<JSON, JSONParseError>,
    pos: usize,
    fpos: usize,
) -> bool {
    match r {
        Ok(j) => p.result == Ok::<JsonValue, ParseFailure>(j@) && pos == p.next && fpos == p.floats,
        Err(e) => p.result == Err::<JsonValue, ParseFailure>(e@),
    }
}

/// Parses the value that begins with the token at `pos`, and leaves `pos`
/// behind the value. `fpos` counts the binary64 numbers taken from
/// `floats`.
pub fn json_value(
    tokens: &Vec<(Token, String)>,
    pos: &mut usize,
    floats: &Vec<Binary64>,
    fpos: &mut usize,
) -> (r: Result<JSON, JSONParseError>)
    requires
        *old(pos) <= tokens.len(),
        *old(fpos) <= floats.len(),
    ensures
        parsed_as(
            parse_value(tokens_model(tokens@), *old(pos) as int, floats@, *old(fpos) as int),
            r,
            *final(pos),
            *final(fpos),
        ),
    decreases tokens.len() - *old(pos), 0int,
{
    if *pos >= tokens.len() {
        return Err(JSONParseError::EOF);
    }
    let token = &tokens[*pos];
    let text = &token.1;
    match token.0 {
        Token::Int => {
            let v = chars_of(text.as_str());
            match parse_int(&v) {
                Some(n) => {
                    *pos = *pos + 1;
                    Ok(JSON::Int(n))
                },
                None => Err(unexpected_token(token)),
            }
        },
        Token::Float => {
            let v = chars_of(text.as_str());
            if is_float_literal(&v) && *fpos < floats.len() {
                let x = floats[*fpos];
                *pos = *pos + 1;
                *fpos = *fpos + 1;
                Ok(JSON::Float(x))
            } else {
                Err(unexpected_token(token))
            }
        },
        Token::String => {
            let v = chars_of(text.as_str());
            if is_string_literal(&v) {
                *pos = *pos + 1;
                Ok(JSON::String(unescape_str(text.as_str())))
            } else {
                Err(unexpected_token(token))
            }
        },
        Token::Identifier => {
            if same_text(text, "null") {
                *pos = *pos + 1;
                Ok(JSON::Null)
            } else if same_text(text, "true") {
                *pos = *pos + 1;
                Ok(JSON::Bool(true))
            } else if same_text(text, "false") {
                *pos = *pos + 1;
                Ok(JSON::Bool(false))
            } else if same_text(text, "infinity") {
                *pos = *pos + 1;
                Ok(JSON::Infinity)
            } else {
                Err(unexpected_token(token))
            }
        },
        Token::Punctuation => {
            if punctuation_is(token, '[') {
                *pos = *pos + 1;
                json_array(tokens, pos, floats, fpos)
            } else if punctuation_is(token, '{') {
                *pos = *pos + 1;
                json_object(tokens, pos, floats, fpos)
            } else {
                Err(unexpected_token(token))
            }
        },
    }
}

/// The texts among `tokens` that are numbers with a fraction or an
/// exponent, in order.
pub open spec fn float_literals(tokens: Seq<(Token, Seq<char>)>) -> Seq<Seq<char>>
    decreases tokens.len(),
{
    if tokens.len() == 0 {
        Seq::empty()
    } else if tokens.last().0 == Token::Float && float_literal(tokens.last().1) {
        float_literals(tokens.drop_last()).push(tokens.last().1)
    } else {
        float_literals(tokens.drop_last())
    }
}

/// What the parser makes of all the values from token `p` on, with the
/// values `acc` in front of them: the values, up to the end of the tokens,
/// or the first failure.
pub open spec fn parse_all(
    tokens: Seq<(Token, Seq<char>)>,
    p: int,
    floats: Seq<Binary64>,
    f: int,
    acc: Seq<JsonValue>,
) -> Result<Seq<JsonValue>, ParseFailure>
    decreases tokens.len() - p,
{
    if p < 0 || p >= tokens.len() {
        Ok(acc)
    } else {
        let v = parse_value(tokens, p, floats, f);
        match v.result {
            Err(e) => Err(e),
            Ok(x) => if v.next <= p || v.next > tokens.len() {
                Err(ParseFailure::EOF)
            } else {
                parse_all(tokens, v.next, floats, v.floats, acc.push(x))
            },
        }
    }
}

/// The texts of a text that are numbers with a fraction or an exponent, in
/// order: the caller owes the parser one binary64 number for each.
pub fn json_float_literals(s: &str) -> (literals: Vec<String>)
    ensures
        crate::json_encode::texts_model(literals@) == float_literals(tokens_from(s@, 0)),
{
    let tokens = json_tokens(s);
    let ghost tm = tokens_model(tokens@);
    let mut literals: Vec<String> = Vec::new();
    let mut i: usize = 0;
    while i < tokens.len()
        invariant
            i <= tokens.len(),
            tm == tokens_model(tokens@),
            crate::json_encode::texts_model(literals@) == float_literals(tm.take(i as int)),
        decreases tokens.len() - i,
    {
        proof {
            assert(tm.take(i + 1).drop_last() =~= tm.take(i as int));
            assert(tm.take(i + 1).last() == (tokens@[i as int].0, tokens@[i as int].1@));
        }
        let is_float = match tokens[i].0 {
            Token::Float => {
                let v = chars_of(tokens[i].1.as_str());
                is_float_literal(&v)
            },
            _ => false,
        };
        if is_float {
            let text = tokens[i].1.clone();
            proof {
                assert(crate::json_encode::texts_model(literals@.push(text))
                    =~= crate::json_encode::texts_model(literals@).push(text@));
            }
            literals.push(text);
        }
        i = i + 1;
    }
    assert(tm.take(tokens.len() as int) =~= tm);
    literals
}

/// Parses the first value of a text. `floats` holds the binary64 number
/// for each text of `json_float_literals`, in order; a number with a
/// fraction or an exponent for which none is left is an unexpected token.
pub fn json_decode(s: &str, floats: &Vec<Binary64>) -> (r: Result<JSON, JSONParseError>)
    ensures
        match r {
            Ok(j) => parse_value(tokens_from(s@, 0), 0, floats@, 0).result == Ok::<
                JsonValue,
                ParseFailure,
            >(j@) && well_formed(j@),
            Err(e) => parse_value(tokens_from(s@, 0), 0, floats@, 0).result == Err::<
                JsonValue,
                ParseFailure,
            >(e@),
        },
{
    proof {
        lemma_parse_well_formed(tokens_from(s@, 0), 0, floats@, 0);
    }
    let tokens = json_tokens(s);
    let mut pos: usize = 0;
    let mut fpos: usize = 0;
    json_value(&tokens, &mut pos, floats, &mut fpos)
}

/// The values of a list of trees, or the failure.
pub open spec fn all_parsed_as(
    p: Result<Seq<JsonValue>, ParseFailure>,
    r: Result<Vec<JSON>, JSONParseError>,
) -> bool {
    match r {
        Ok(v) => p == Ok::<Seq<JsonValue>, ParseFailure>(array_model(v@)),
        Err(e) => p == Err::<Seq<JsonValue>, ParseFailure>(e@),
    }
}

/// Parses all the values of a text, one after the other. `floats` holds
/// the binary64 number for each text of `json_float_literals`, in order.
pub fn json_decode_all(s: &str, floats: &Vec<Binary64>) -> (r: Result<Vec<JSON>, JSONParseError>)
    ensures
        all_parsed_as(parse_all(tokens_from(s@, 0), 0, floats@, 0, Seq::empty()), r),
{
    let tokens = json_tokens(s);
    let ghost tm = tokens_model(tokens@);
    let ghost whole = parse_all(tm, 0, floats@, 0, Seq::empty());
    let mut pos: usize = 0;
    let mut fpos: usize = 0;
    let mut v: Vec<JSON> = Vec::new();
    assert(array_model(v@) =~= Seq::<JsonValue>::empty());
    while pos < tokens.len()
        invariant
            tm == tokens_model(tokens@),
            tm == tokens_from(s@, 0),
            pos <= tokens.len(),
            fpos <= floats.len(),
            whole == parse_all(tm, 0, floats@, 0, Seq::empty()),
            whole == parse_all(tm, pos as int, floats@, fpos as int, array_model(v@)),
        decreases tokens.len() - pos,
    {
        let ghost acc = array_model(v@);
        proof {
            lemma_value_progress(tm, pos as int, floats@, fpos as int);
        }
        match json_value(&tokens, &mut pos, floats, &mut fpos) {
            Ok(val) => {
                proof {
                    assert(array_model(v@.push(val)) =~= acc.push(val@));
                }
                v.push(val);
            },
            Err(e) => {
                return Err(e);
            },
        }
    }
    Ok(v)
}

} // verus!

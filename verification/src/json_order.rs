//! The total order on values.
//!
//! Values are ordered by kind first: null, booleans, numbers, binary
//! strings, strings, arrays, objects, infinity. Integers and binary64
//! numbers are one kind and are ordered by value, exactly. Within the other
//! kinds: false before true; binary strings and strings byte by byte, a
//! string by its UTF-8 bytes; arrays element by element; objects entry by
//! entry, the key before the value. A sequence that is a prefix of another
//! comes before it.
//!
//! The order is stated as a sign: `-1`, `0` or `1` as the first value is
//! below, equal to or above the second.

use std::cmp::Ordering;
use vstd::prelude::*;
use vstd::utf8::encode_utf8;

use crate::cmp_fi::{
    compare_floats, compare_int_float, float_key, int_key, sign_of_difference,
};
use crate::json::{array_model, object_model, JsonValue, JSON};

verus! {

/// The rank of the kind of a value. Integers and binary64 numbers share a
/// rank.
pub open spec fn tag_rank(v: JsonValue) -> int {
    match v {
        JsonValue::Null => 0,
        JsonValue::Bool(_) => 1,
        JsonValue::Int(_) => 2,
        JsonValue::Float(_) => 2,
        JsonValue::Binary(_) => 3,
        JsonValue::String(_) => 4,
        JsonValue::Array(_) => 5,
        JsonValue::Object(_) => 6,
        JsonValue::Infinity => 7,
    }
}

/// The place of a number among all numbers.
pub open spec fn number_key(v: JsonValue) -> int {
    match v {
        JsonValue::Int(n) => int_key(n),
        JsonValue::Float(x) => float_key(x),
        _ => 0,
    }
}

/// The place of a boolean: false before true.
pub open spec fn bool_key(b: bool) -> int {
    if b {
        1
    } else {
        0
    }
}

/// The order of two byte strings from place `i` on, byte by byte.
pub open spec fn bytes_sign_from(a: Seq<u8>, b: Seq<u8>, i: int) -> int
    decreases a.len() - i,
{
    if i >= a.len() {
        if i >= b.len() {
            0
        } else {
            -1
        }
    } else if i >= b.len() {
        1
    } else if a[i] != b[i] {
        sign_of_difference(a[i] as int, b[i] as int)
    } else {
        bytes_sign_from(a, b, i + 1)
    }
}

/// The order of two byte strings.
pub open spec fn bytes_sign(a: Seq<u8>, b: Seq<u8>) -> int {
    bytes_sign_from(a, b, 0)
}

/// The order of two strings: that of their UTF-8 bytes.
pub open spec fn text_sign(a: Seq<char>, b: Seq<char>) -> int {
    bytes_sign(encode_utf8(a), encode_utf8(b))
}

/// The order of two values.
pub open spec fn json_sign(a: JsonValue, b: JsonValue) -> int
    decreases a, 0int,
{
    if tag_rank(a) != tag_rank(b) {
        sign_of_difference(tag_rank(a), tag_rank(b))
    } else {
        match a {
            JsonValue::Null => 0,
            JsonValue::Bool(x) => sign_of_difference(bool_key(x), bool_key(b->Bool_0)),
            JsonValue::Int(_) => sign_of_difference(number_key(a), number_key(b)),
            JsonValue::Float(_) => sign_of_difference(number_key(a), number_key(b)),
            JsonValue::Binary(x) => bytes_sign(x, b->Binary_0),
            JsonValue::String(x) => text_sign(x, b->String_0),
            JsonValue::Array(x) => array_sign_from(x, b->Array_0, 0),
            JsonValue::Object(x) => object_sign_from(x, b->Object_0, 0),
            JsonValue::Infinity => 0,
        }
    }
}

/// The order of two arrays from place `i` on, element by element.
pub open spec fn array_sign_from(a: Seq<JsonValue>, b: Seq<JsonValue>, i: int) -> int
    decreases a, a.len() - i,
{
    if i < 0 || i >= a.len() {
        if i >= b.len() {
            0
        } else {
            -1
        }
    } else if i >= b.len() {
        1
    } else if json_sign(a[i], b[i]) != 0 {
        json_sign(a[i], b[i])
    } else {
        array_sign_from(a, b, i + 1)
    }
}

/// The order of two objects from place `i` on, entry by entry, the key of
/// an entry before its value.
pub open spec fn object_sign_from(
    a: Seq<(Seq<char>, JsonValue)>,
    b: Seq<(Seq<char>, JsonValue)>,
    i: int,
) -> int
    decreases a, a.len() - i,
{
    if i < 0 || i >= a.len() {
        if i >= b.len() {
            0
        } else {
            -1
        }
    } else if i >= b.len() {
        1
    } else if text_sign(a[i].0, b[i].0) != 0 {
        text_sign(a[i].0, b[i].0)
    } else if json_sign(a[i].1, b[i].1) != 0 {
        json_sign(a[i].1, b[i].1)
    } else {
        object_sign_from(a, b, i + 1)
    }
}

/// Whether three signs are those of a chain: the order of the first and
/// the third value follows from the other two wherever they agree.
pub open spec fn chains(ab: int, bc: int, ac: int) -> bool {
    &&& ab == 0 ==> ac == bc
    &&& bc == 0 ==> ac == ab
    &&& ab < 0 && bc < 0 ==> ac < 0
    &&& ab > 0 && bc > 0 ==> ac > 0
}

/// Whether two signs are those of a pair taken both ways.
pub open spec fn mirrors(ab: int, ba: int) -> bool {
    -1 <= ab <= 1 && ba == -ab
}

/// Byte strings: each equals itself, and the order of two turns round with
/// them.
pub proof fn lemma_bytes_sign_mirrors(a: Seq<u8>, b: Seq<u8>, i: int)
    requires
        0 <= i,
    ensures
        bytes_sign_from(a, a, i) == 0,
        mirrors(bytes_sign_from(a, b, i), bytes_sign_from(b, a, i)),
    decreases a.len() - i,
{
    if i < a.len() {
        lemma_bytes_sign_mirrors(a, a, i + 1);
        if i < b.len() && a[i] == b[i] {
            lemma_bytes_sign_mirrors(a, b, i + 1);
        }
    }
}

/// Byte strings: the order passes on along a chain.
pub proof fn lemma_bytes_sign_chains(a: Seq<u8>, b: Seq<u8>, c: Seq<u8>, i: int)
    requires
        0 <= i,
    ensures
        chains(bytes_sign_from(a, b, i), bytes_sign_from(b, c, i), bytes_sign_from(a, c, i)),
    decreases a.len() - i,
{
    if i < a.len() && i < b.len() && i < c.len() && a[i] == b[i] && b[i] == c[i] {
        lemma_bytes_sign_chains(a, b, c, i + 1);
    }
}

/// Byte strings that the order holds equal are equal.
pub proof fn lemma_bytes_sign_equal(a: Seq<u8>, b: Seq<u8>, i: int)
    requires
        0 <= i <= a.len(),
        i <= b.len(),
        bytes_sign_from(a, b, i) == 0,
    ensures
        a.skip(i) == b.skip(i),
    decreases a.len() - i,
{
    if i < a.len() {
        lemma_bytes_sign_equal(a, b, i + 1);
        assert(a.skip(i) =~= seq![a[i]] + a.skip(i + 1));
        assert(b.skip(i) =~= seq![b[i]] + b.skip(i + 1));
    } else {
        assert(a.skip(i) =~= b.skip(i));
    }
}

/// Strings that the order holds equal are equal.
pub proof fn lemma_text_sign_equal(a: Seq<char>, b: Seq<char>)
    requires
        text_sign(a, b) == 0,
    ensures
        a == b,
{
    let x = encode_utf8(a);
    let y = encode_utf8(b);
    lemma_bytes_sign_equal(x, y, 0);
    assert(x.skip(0) =~= x);
    assert(y.skip(0) =~= y);
    vstd::utf8::encode_utf8_decode_utf8(a);
    vstd::utf8::encode_utf8_decode_utf8(b);
}

/// Each value equals itself, and the order of two values turns round with
/// them.
pub proof fn lemma_json_sign_mirrors(a: JsonValue, b: JsonValue)
    ensures
        json_sign(a, a) == 0,
        mirrors(json_sign(a, b), json_sign(b, a)),
    decreases a, 0int,
{
    match a {
        JsonValue::Binary(x) => {
            lemma_bytes_sign_mirrors(x, x, 0);
            if b is Binary {
                lemma_bytes_sign_mirrors(x, b->Binary_0, 0);
            }
        },
        JsonValue::String(x) => {
            lemma_bytes_sign_mirrors(encode_utf8(x), encode_utf8(x), 0);
            if b is String {
                lemma_bytes_sign_mirrors(encode_utf8(x), encode_utf8(b->String_0), 0);
            }
        },
        JsonValue::Array(x) => {
            lemma_array_sign_mirrors(x, x, 0);
            if b is Array {
                lemma_array_sign_mirrors(x, b->Array_0, 0);
            }
        },
        JsonValue::Object(x) => {
            lemma_object_sign_mirrors(x, x, 0);
            if b is Object {
                lemma_object_sign_mirrors(x, b->Object_0, 0);
            }
        },
        _ => {},
    }
}

/// Arrays: each equals itself, and the order of two turns round with them.
pub proof fn lemma_array_sign_mirrors(a: Seq<JsonValue>, b: Seq<JsonValue>, i: int)
    requires
        0 <= i,
    ensures
        array_sign_from(a, a, i) == 0,
        mirrors(array_sign_from(a, b, i), array_sign_from(b, a, i)),
    decreases a, a.len() - i,
{
    if i < a.len() {
        lemma_json_sign_mirrors(a[i], a[i]);
        lemma_array_sign_mirrors(a, a, i + 1);
        if i < b.len() {
            lemma_json_sign_mirrors(a[i], b[i]);
            if json_sign(a[i], b[i]) == 0 {
                lemma_array_sign_mirrors(a, b, i + 1);
            }
        }
    }
}

/// Objects: each equals itself, and the order of two turns round with
/// them.
pub proof fn lemma_object_sign_mirrors(
    a: Seq<(Seq<char>, JsonValue)>,
    b: Seq<(Seq<char>, JsonValue)>,
    i: int,
)
    requires
        0 <= i,
    ensures
        object_sign_from(a, a, i) == 0,
        mirrors(object_sign_from(a, b, i), object_sign_from(b, a, i)),
    decreases a, a.len() - i,
{
    if i < a.len() {
        lemma_bytes_sign_mirrors(encode_utf8(a[i].0), encode_utf8(a[i].0), 0);
        lemma_json_sign_mirrors(a[i].1, a[i].1);
        lemma_object_sign_mirrors(a, a, i + 1);
        if i < b.len() {
            lemma_bytes_sign_mirrors(encode_utf8(a[i].0), encode_utf8(b[i].0), 0);
            lemma_json_sign_mirrors(a[i].1, b[i].1);
            if text_sign(a[i].0, b[i].0) == 0 && json_sign(a[i].1, b[i].1) == 0 {
                lemma_object_sign_mirrors(a, b, i + 1);
            }
        }
    }
}

/// The order of values passes on along a chain: from the order of a first
/// and a second value and that of the second and a third follows that of
/// the first and the third.
pub proof fn lemma_json_sign_chains(a: JsonValue, b: JsonValue, c: JsonValue)
    ensures
        chains(json_sign(a, b), json_sign(b, c), json_sign(a, c)),
    decreases a, 0int,
{
    if tag_rank(a) == tag_rank(b) && tag_rank(b) == tag_rank(c) {
        match a {
            JsonValue::Binary(x) => {
                lemma_bytes_sign_chains(x, b->Binary_0, c->Binary_0, 0);
            },
            JsonValue::String(x) => {
                lemma_bytes_sign_chains(
                    encode_utf8(x),
                    encode_utf8(b->String_0),
                    encode_utf8(c->String_0),
                    0,
                );
            },
            JsonValue::Array(x) => {
                lemma_array_sign_chains(x, b->Array_0, c->Array_0, 0);
            },
            JsonValue::Object(x) => {
                lemma_object_sign_chains(x, b->Object_0, c->Object_0, 0);
            },
            _ => {},
        }
    }
}

/// Arrays: the order passes on along a chain.
pub proof fn lemma_array_sign_chains(
    a: Seq<JsonValue>,
    b: Seq<JsonValue>,
    c: Seq<JsonValue>,
    i: int,
)
    requires
        0 <= i,
    ensures
        chains(array_sign_from(a, b, i), array_sign_from(b, c, i), array_sign_from(a, c, i)),
    decreases a, a.len() - i,
{
    if i < a.len() && i < b.len() && i < c.len() {
        lemma_json_sign_chains(a[i], b[i], c[i]);
        lemma_json_sign_mirrors(a[i], b[i]);
        lemma_json_sign_mirrors(b[i], c[i]);
        lemma_json_sign_mirrors(a[i], c[i]);
        if json_sign(a[i], b[i]) == 0 && json_sign(b[i], c[i]) == 0 {
            lemma_array_sign_chains(a, b, c, i + 1);
        }
    }
}

/// Objects: the order passes on along a chain.
pub proof fn lemma_object_sign_chains(
    a: Seq<(Seq<char>, JsonValue)>,
    b: Seq<(Seq<char>, JsonValue)>,
    c: Seq<(Seq<char>, JsonValue)>,
    i: int,
)
    requires
        0 <= i,
    ensures
        chains(object_sign_from(a, b, i), object_sign_from(b, c, i), object_sign_from(a, c, i)),
    decreases a, a.len() - i,
{
    if i < a.len() && i < b.len() && i < c.len() {
        let ka = encode_utf8(a[i].0);
        let kb = encode_utf8(b[i].0);
        let kc = encode_utf8(c[i].0);
        lemma_bytes_sign_chains(ka, kb, kc, 0);
        lemma_bytes_sign_mirrors(ka, kb, 0);
        lemma_bytes_sign_mirrors(kb, kc, 0);
        lemma_bytes_sign_mirrors(ka, kc, 0);
        lemma_json_sign_chains(a[i].1, b[i].1, c[i].1);
        lemma_json_sign_mirrors(a[i].1, b[i].1);
        lemma_json_sign_mirrors(b[i].1, c[i].1);
        lemma_json_sign_mirrors(a[i].1, c[i].1);
        if text_sign(a[i].0, b[i].0) == 0 && text_sign(b[i].0, c[i].0) == 0 && json_sign(
            a[i].1,
            b[i].1,
        ) == 0 && json_sign(b[i].1, c[i].1) == 0 {
            lemma_object_sign_chains(a, b, c, i + 1);
        }
    }
}

/// The order on values is total: each value equals itself, the order of two
/// values turns round with them, and a value that is not above a second,
/// which is not above a third, is not above the third.
pub proof fn lemma_json_order_total(a: JsonValue, b: JsonValue, c: JsonValue)
    ensures
        json_sign(a, a) == 0,
        -1 <= json_sign(a, b) <= 1,
        json_sign(b, a) == -json_sign(a, b),
        json_sign(a, b) <= 0 && json_sign(b, c) <= 0 ==> json_sign(a, c) <= 0,
        json_sign(a, b) <= 0 && json_sign(b, c) < 0 ==> json_sign(a, c) < 0,
        json_sign(a, b) < 0 && json_sign(b, c) <= 0 ==> json_sign(a, c) < 0,
        json_sign(a, b) == 0 && json_sign(b, c) == 0 ==> json_sign(a, c) == 0,
{
    lemma_json_sign_mirrors(a, b);
    lemma_json_sign_mirrors(b, c);
    lemma_json_sign_mirrors(a, c);
    lemma_json_sign_chains(a, b, c);
}

/// Compares two byte strings, byte by byte.
pub fn compare_bytes(a: &[u8], b: &[u8]) -> (r: i8)
    ensures
        r == bytes_sign(a@, b@),
{
    let mut i: usize = 0;
    while i < a.len() && i < b.len()
        invariant
            i <= a.len(),
            i <= b.len(),
            bytes_sign(a@, b@) == bytes_sign_from(a@, b@, i as int),
        decreases a.len() - i,
    {
        if a[i] < b[i] {
            return -1;
        } else if a[i] > b[i] {
            return 1;
        }
        i = i + 1;
    }
    if i < a.len() {
        1
    } else if i < b.len() {
        -1
    } else {
        0
    }
}

/// Compares two strings by their UTF-8 bytes.
pub fn compare_text(a: &str, b: &str) -> (r: i8)
    ensures
        r == text_sign(a@, b@),
{
    compare_bytes(a.as_bytes(), b.as_bytes())
}

/// The rank of the kind of a value.
pub fn json_typeid(json: &JSON) -> (r: u8)
    ensures
        r == tag_rank(json@),
{
    match json {
        JSON::Null => 0,
        JSON::Bool(_) => 1,
        JSON::Int(_) => 2,
        JSON::Float(_) => 2,
        JSON::Binary(_) => 3,
        JSON::String(_) => 4,
        JSON::Array(_) => 5,
        JSON::Object(_) => 6,
        JSON::Infinity => 7,
    }
}

/// Compares two arrays, element by element.
fn compare_arrays(a: &JSON, b: &JSON) -> (r: i8)
    requires
        a is Array,
        b is Array,
    ensures
        r == json_sign(a@, b@),
    decreases a, 0int,
{
    let x = match a {
        JSON::Array(x) => x,
        _ => {
            return 0;
        },
    };
    let y = match b {
        JSON::Array(y) => y,
        _ => {
            return 0;
        },
    };
    let ghost xs = array_model(x@);
    let ghost ys = array_model(y@);
    let mut i: usize = 0;
    while i < x.len() && i < y.len()
        invariant
            a is Array,
            a->Array_0 == *x,
            b is Array,
            b->Array_0 == *y,
            xs == array_model(x@),
            ys == array_model(y@),
            i <= x.len(),
            i <= y.len(),
            array_sign_from(xs, ys, 0) == array_sign_from(xs, ys, i as int),
        decreases x.len() - i,
    {
        proof {
            vstd::std_specs::vec::axiom_vec_index_decreases(*x, i as int);
        }
        let c = json_compare(&x[i], &y[i]);
        if c != 0 {
            return c;
        }
        i = i + 1;
    }
    if i < x.len() {
        1
    } else if i < y.len() {
        -1
    } else {
        0
    }
}

/// Compares two objects, entry by entry.
fn compare_objects(a: &JSON, b: &JSON) -> (r: i8)
    requires
        a is Object,
        b is Object,
    ensures
        r == json_sign(a@, b@),
    decreases a, 0int,
{
    let x = match a {
        JSON::Object(x) => x,
        _ => {
            return 0;
        },
    };
    let y = match b {
        JSON::Object(y) => y,
        _ => {
            return 0;
        },
    };
    let ghost xs = object_model(x@);
    let ghost ys = object_model(y@);
    let mut i: usize = 0;
    while i < x.len() && i < y.len()
        invariant
            a is Object,
            a->Object_0 == *x,
            b is Object,
            b->Object_0 == *y,
            xs == object_model(x@),
            ys == object_model(y@),
            i <= x.len(),
            i <= y.len(),
            object_sign_from(xs, ys, 0) == object_sign_from(xs, ys, i as int),
        decreases x.len() - i,
    {
        proof {
            vstd::std_specs::vec::axiom_vec_index_decreases(*x, i as int);
        }
        let k = compare_text(x[i].0.as_str(), y[i].0.as_str());
        if k != 0 {
            return k;
        }
        let c = json_compare(&x[i].1, &y[i].1);
        if c != 0 {
            return c;
        }
        i = i + 1;
    }
    if i < x.len() {
        1
    } else if i < y.len() {
        -1
    } else {
        0
    }
}

/// Compares two values: `-1`, `0` or `1` as the first is below, equal to or
/// above the second.
pub fn json_compare(a: &JSON, b: &JSON) -> (r: i8)
    ensures
        r == json_sign(a@, b@),
    decreases a, 1int,
{
    let ta = json_typeid(a);
    let tb = json_typeid(b);
    if ta < tb {
        return -1;
    } else if ta > tb {
        return 1;
    }
    match a {
        JSON::Null => 0,
        JSON::Bool(x) => match b {
            JSON::Bool(y) => if *x == *y {
                0
            } else if *y {
                -1
            } else {
                1
            },
            _ => 0,
        },
        JSON::Int(n) => match b {
            JSON::Int(m) => {
                proof {
                    crate::cmp_fi::lemma_int_key_order(*n, *m);
                }
                if *n < *m {
                    -1
                } else if *n == *m {
                    0
                } else {
                    1
                }
            },
            JSON::Float(y) => compare_int_float(*n, *y),
            _ => 0,
        },
        JSON::Float(x) => match b {
            JSON::Int(m) => -compare_int_float(*m, *x),
            JSON::Float(y) => compare_floats(*x, *y),
            _ => 0,
        },
        JSON::Binary(x) => match b {
            JSON::Binary(y) => compare_bytes(x.as_slice(), y.as_slice()),
            _ => 0,
        },
        JSON::String(x) => match b {
            JSON::String(y) => compare_text(x.as_str(), y.as_str()),
            _ => 0,
        },
        JSON::Array(_) => compare_arrays(a, b),
        JSON::Object(_) => compare_objects(a, b),
        JSON::Infinity => 0,
    }
}

/// The order that a sign stands for.
pub open spec fn sign_ordering(c: int) -> Ordering {
    if c < 0 {
        Ordering::Less
    } else if c == 0 {
        Ordering::Equal
    } else {
        Ordering::Greater
    }
}

impl JSON {
    /// The order of this value and another.
    pub fn cmp(&self, other: &JSON) -> (r: Ordering)
        ensures
            r == sign_ordering(json_sign(self@, other@)),
    {
        let c = json_compare(self, other);
        if c < 0 {
            Ordering::Less
        } else if c == 0 {
            Ordering::Equal
        } else {
            Ordering::Greater
        }
    }
}

impl PartialEq for JSON {
    fn eq(&self, other: &JSON) -> (r: bool) {
        json_compare(self, other) == 0
    }
}

impl vstd::std_specs::cmp::PartialEqSpecImpl for JSON {
    open spec fn obeys_eq_spec() -> bool {
        true
    }

    open spec fn eq_spec(&self, other: &JSON) -> bool {
        json_sign(self@, other@) == 0
    }
}

impl Eq for JSON {

}

impl PartialOrd for JSON {
    fn partial_cmp(&self, other: &JSON) -> (r: Option<Ordering>) {
        Some(self.cmp(other))
    }
}

impl vstd::std_specs::cmp::PartialOrdSpecImpl for JSON {
    open spec fn obeys_partial_cmp_spec() -> bool {
        true
    }

    open spec fn partial_cmp_spec(&self, other: &JSON) -> Option<Ordering> {
        Some(sign_ordering(json_sign(self@, other@)))
    }
}

} // verus!

//! The value tree: a superset of JSON with integers, binary strings and a
//! distinct infinity.
//!
//! Numbers that are no integers are held as binary64 patterns. Turning such
//! a number into decimal text, and back, is left to the caller: the encoder
//! takes the texts, the decoder the numbers, in the order in which they
//! stand in the tree or in the text.

use vstd::prelude::*;

use crate::f64_conv::Binary64;

pub use crate::json_decode::{
    json_array, json_decode, json_decode_all, json_float_literals, json_object, json_value,
};
pub use crate::json_encode::{json_encode, json_floats};
pub use crate::json_order::{json_compare, json_typeid};
pub use crate::json_tokens::{json_tokens, unescape_str, Token};

verus! {

/// A value.
#[derive(Debug)]
pub enum JSON {
    Null,
    Bool(bool),
    Int(i64),
    Float(Binary64),
    Binary(Vec<u8>),
    String(String),
    Array(Vec<JSON>),
    /// The entries of an object, by ascending key.
    Object(Vec<(String, JSON)>),
    Infinity,
}

/// Why a text is no value.
#[derive(Debug)]
pub enum JSONParseError {
    /// The text ended inside a value.
    EOF,
    /// A token stood where it cannot stand: the token.
    UnexpectedToken(String),
}

/// The mathematical value that a `JSON` stands for.
pub enum JsonValue {
    Null,
    Bool(bool),
    Int(i64),
    Float(Binary64),
    Binary(Seq<u8>),
    String(Seq<char>),
    Array(Seq<JsonValue>),
    Object(Seq<(Seq<char>, JsonValue)>),
    Infinity,
}

/// The mathematical failure that a `JSONParseError` stands for.
pub enum ParseFailure {
    EOF,
    UnexpectedToken(Seq<char>),
}

impl View for JSONParseError {
    type V = ParseFailure;

    open spec fn view(&self) -> ParseFailure {
        match self {
            JSONParseError::EOF => ParseFailure::EOF,
            JSONParseError::UnexpectedToken(s) => ParseFailure::UnexpectedToken(s@),
        }
    }
}

/// The values of a list of trees.
pub open spec fn array_model(v: Seq<JSON>) -> Seq<JsonValue>
    decreases v,
{
    Seq::new(
        v.len(),
        |i: int|
            if 0 <= i < v.len() {
                v[i].view()
            } else {
                JsonValue::Null
            },
    )
}

/// The keys and values of a list of entries.
pub open spec fn object_model(v: Seq<(String, JSON)>) -> Seq<(Seq<char>, JsonValue)>
    decreases v,
{
    Seq::new(
        v.len(),
        |i: int|
            if 0 <= i < v.len() {
                (v[i].0@, v[i].1.view())
            } else {
                (Seq::empty(), JsonValue::Null)
            },
    )
}

impl View for JSON {
    type V = JsonValue;

    open spec fn view(&self) -> JsonValue
        decreases self,
    {
        match self {
            JSON::Null => JsonValue::Null,
            JSON::Bool(b) => JsonValue::Bool(*b),
            JSON::Int(n) => JsonValue::Int(*n),
            JSON::Float(x) => JsonValue::Float(*x),
            JSON::Binary(v) => JsonValue::Binary(v@),
            JSON::String(s) => JsonValue::String(s@),
            JSON::Array(v) => JsonValue::Array(array_model(v@)),
            JSON::Object(v) => JsonValue::Object(object_model(v@)),
            JSON::Infinity => JsonValue::Infinity,
        }
    }
}

impl Clone for JSON {
    fn clone(&self) -> (r: JSON)
        ensures
            r@ == self@,
    {
        self.copy()
    }
}

impl JSON {
    /// A copy of the value.
    pub fn copy(&self) -> (r: JSON)
        ensures
            r@ == self@,
        decreases self,
    {
        match self {
            JSON::Null => JSON::Null,
            JSON::Bool(b) => JSON::Bool(*b),
            JSON::Int(n) => JSON::Int(*n),
            JSON::Float(x) => JSON::Float(*x),
            JSON::Binary(v) => JSON::Binary(vstd::slice::slice_to_vec(v.as_slice())),
            JSON::String(s) => JSON::String(s.clone()),
            JSON::Array(v) => {
                let mut items: Vec<JSON> = Vec::new();
                let mut i: usize = 0;
                while i < v.len()
                    invariant
                        i <= v.len(),
                        self is Array,
                        self->Array_0 == *v,
                        array_model(items@) == array_model(v@).take(i as int),
                    decreases v.len() - i,
                {
                    proof {
                        vstd::std_specs::vec::axiom_vec_index_decreases(*v, i as int);
                    }
                    let item = v[i].copy();
                    proof {
                        let before = array_model(items@);
                        let after = array_model(items@.push(item));
                        let wanted = array_model(v@).take(i + 1);
                        assert(array_model(v@).len() == v@.len());
                        assert(after.len() == items@.len() + 1);
                        assert(before.len() == items@.len());
                        assert(before.len() == i);
                        assert forall|j: int| 0 <= j < after.len() implies after[j] == wanted[j] by {
                            if j < i {
                                assert(before[j] == array_model(v@).take(i as int)[j]);
                            }
                        }
                        assert(after =~= wanted);
                    }
                    items.push(item);
                    i = i + 1;
                }
                assert(array_model(v@).take(v.len() as int) =~= array_model(v@));
                JSON::Array(items)
            },
            JSON::Object(v) => {
                let mut entries: Vec<(String, JSON)> = Vec::new();
                let mut i: usize = 0;
                while i < v.len()
                    invariant
                        i <= v.len(),
                        self is Object,
                        self->Object_0 == *v,
                        object_model(entries@) == object_model(v@).take(i as int),
                    decreases v.len() - i,
                {
                    proof {
                        vstd::std_specs::vec::axiom_vec_index_decreases(*v, i as int);
                    }
                    let key = v[i].0.clone();
                    let value = v[i].1.copy();
                    proof {
                        let before = object_model(entries@);
                        let after = object_model(entries@.push((key, value)));
                        let wanted = object_model(v@).take(i + 1);
                        assert(object_model(v@).len() == v@.len());
                        assert(after.len() == entries@.len() + 1);
                        assert(before.len() == entries@.len());
                        assert(before.len() == i);
                        assert forall|j: int| 0 <= j < after.len() implies after[j] == wanted[j] by {
                            if j < i {
                                assert(before[j] == object_model(v@).take(i as int)[j]);
                            }
                        }
                        assert(after =~= wanted);
                    }
                    entries.push((key, value));
                    i = i + 1;
                }
                assert(object_model(v@).take(v.len() as int) =~= object_model(v@));
                JSON::Object(entries)
            },
            JSON::Infinity => JSON::Infinity,
        }
    }
}

} // verus!

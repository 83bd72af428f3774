//! The text form of values.
//!
//! A value is rendered as a run of pieces: texts, and the binary64 numbers
//! that stand between them. The run becomes one text once the caller has
//! supplied the decimal text of each number.

use vstd::prelude::*;
use vstd::string::StringExecFns;

use crate::f64_conv::Binary64;
use crate::json::{array_model, object_model, JsonValue, JSON};
use crate::util::{repr, repr_text};

verus! {

/// A piece of the text form of a value.
#[derive(Debug)]
pub enum Piece {
    /// Text that stands as it is.
    Text(String),
    /// A binary64 number, in whose place its decimal text goes.
    Float(Binary64),
}

/// The mathematical value of a `Piece`.
pub enum PieceModel {
    Text(Seq<char>),
    Float(Binary64),
}

impl View for Piece {
    type V = PieceModel;

    open spec fn view(&self) -> PieceModel {
        match self {
            Piece::Text(s) => PieceModel::Text(s@),
            Piece::Float(x) => PieceModel::Float(*x),
        }
    }
}

/// The values of a run of pieces.
pub open spec fn pieces_model(pieces: Seq<Piece>) -> Seq<PieceModel> {
    pieces.map_values(|p: Piece| p@)
}

/// The views of a list of texts.
pub open spec fn texts_model(texts: Seq<String>) -> Seq<Seq<char>> {
    texts.map_values(|t: String| t@)
}

/// The decimal digit for a value below ten.
pub open spec fn digit_char(d: int) -> char {
    (0x30 + d) as char
}

/// The decimal digits of a natural number, without leading zeros.
pub open spec fn nat_text(n: nat) -> Seq<char>
    decreases n,
{
    if n < 10 {
        seq![digit_char(n as int)]
    } else {
        nat_text(n / 10).push(digit_char((n % 10) as int))
    }
}

/// The decimal text of an integer: a minus sign in front of the digits of
/// a negative one.
pub open spec fn int_text(n: int) -> Seq<char> {
    if n < 0 {
        seq!['-'] + nat_text((-n) as nat)
    } else {
        nat_text(n as nat)
    }
}

/// The text with a backslash in front of each double quote.
pub open spec fn escaped(s: Seq<char>) -> Seq<char>
    decreases s.len(),
{
    if s.len() == 0 {
        Seq::empty()
    } else if s.last() == '"' {
        escaped(s.drop_last()) + seq!['\\', '"']
    } else {
        escaped(s.drop_last()).push(s.last())
    }
}

/// A string between double quotes, a backslash in front of each double
/// quote within.
pub open spec fn quoted(s: Seq<char>) -> Seq<char> {
    seq!['"'] + escaped(s) + seq!['"']
}

/// The one piece that holds `text`.
pub open spec fn text_piece(text: Seq<char>) -> Seq<PieceModel> {
    seq![PieceModel::Text(text)]
}

/// The pieces of a value.
pub open spec fn pieces(v: JsonValue) -> Seq<PieceModel>
    decreases v, 0int,
{
    match v {
        JsonValue::Null => text_piece("null"@),
        JsonValue::Bool(b) => if b {
            text_piece("true"@)
        } else {
            text_piece("false"@)
        },
        JsonValue::Int(n) => text_piece(int_text(n as int)),
        JsonValue::Float(x) => seq![PieceModel::Float(x)],
        JsonValue::Binary(b) => text_piece(repr_text(b)),
        JsonValue::String(s) => text_piece(quoted(s)),
        JsonValue::Array(a) => text_piece("["@) + array_pieces(a, a.len() as int) + text_piece(
            "]"@,
        ),
        JsonValue::Object(o) => text_piece("{"@) + object_pieces(o, o.len() as int) + text_piece(
            "}"@,
        ),
        JsonValue::Infinity => text_piece("infinity"@),
    }
}

/// The pieces of the first `n` elements of an array, a comma and a space
/// between each two.
pub open spec fn array_pieces(a: Seq<JsonValue>, n: int) -> Seq<PieceModel>
    decreases a, n,
{
    if n <= 0 || n > a.len() {
        Seq::empty()
    } else if n == 1 {
        pieces(a[0])
    } else {
        array_pieces(a, n - 1) + text_piece(", "@) + pieces(a[n - 1])
    }
}

/// The pieces of one entry of an object: the key as a string, a colon and a
/// space, and the value.
pub open spec fn entry_pieces(key: Seq<char>, value: JsonValue) -> Seq<PieceModel>
    decreases value, 1int,
{
    text_piece(quoted(key)) + text_piece(": "@) + pieces(value)
}

/// The pieces of the first `n` entries of an object, a comma and a space
/// between each two.
pub open spec fn object_pieces(o: Seq<(Seq<char>, JsonValue)>, n: int) -> Seq<PieceModel>
    decreases o, n,
{
    if n <= 0 || n > o.len() {
        Seq::empty()
    } else if n == 1 {
        entry_pieces(o[0].0, o[0].1)
    } else {
        object_pieces(o, n - 1) + text_piece(", "@) + entry_pieces(o[n - 1].0, o[n - 1].1)
    }
}

/// The numbers among a run of pieces, in order.
pub open spec fn floats_in(p: Seq<PieceModel>) -> Seq<Binary64>
    decreases p.len(),
{
    if p.len() == 0 {
        Seq::empty()
    } else {
        match p.last() {
            PieceModel::Text(_) => floats_in(p.drop_last()),
            PieceModel::Float(x) => floats_in(p.drop_last()).push(x),
        }
    }
}

/// The text that a run of pieces becomes when each number is replaced by
/// its text: `texts` holds one text for each number, in order.
pub open spec fn assembled(p: Seq<PieceModel>, texts: Seq<Seq<char>>) -> Seq<char>
    decreases p.len(),
{
    if p.len() == 0 {
        Seq::empty()
    } else {
        match p.last() {
            PieceModel::Text(s) => assembled(p.drop_last(), texts) + s,
            PieceModel::Float(_) => assembled(p.drop_last(), texts.drop_last()) + texts.last(),
        }
    }
}

/// The numbers of a value, in the order in which its text form holds them.
pub open spec fn floats_of(v: JsonValue) -> Seq<Binary64> {
    floats_in(pieces(v))
}

/// The text form of a value, given the decimal text of each of its numbers.
pub open spec fn json_text(v: JsonValue, texts: Seq<Seq<char>>) -> Seq<char> {
    assembled(pieces(v), texts)
}

/// Appends the decimal digits of `n` to `out`.
pub fn push_nat(out: &mut String, n: u64)
    ensures
        final(out)@ == old(out)@ + nat_text(n as nat),
    decreases n,
{
    if n >= 10 {
        push_nat(out, n / 10);
    }
    let d: u8 = (n % 10) as u8;
    out.push((0x30 + d) as char);
    proof {
        if n < 10 {
            assert(out@ =~= old(out)@ + nat_text(n as nat));
        } else {
            assert(out@ =~= old(out)@ + nat_text((n / 10) as nat).push(
                digit_char((n % 10) as int),
            ));
        }
    }
}

/// Appends the decimal text of `n` to `out`.
pub fn push_int(out: &mut String, n: i64)
    ensures
        final(out)@ == old(out)@ + int_text(n as int),
{
    if n < 0 {
        out.push('-');
        let m: u64 = if n == i64::MIN {
            0x8000_0000_0000_0000
        } else {
            (-n) as u64
        };
        push_nat(out, m);
        assert(out@ =~= old(out)@ + int_text(n as int));
    } else {
        push_nat(out, n as u64);
    }
}

/// Appends `s` between double quotes to `out`, a backslash in front of each
/// double quote within.
pub fn push_quoted(out: &mut String, s: &str)
    ensures
        final(out)@ == old(out)@ + quoted(s@),
{
    broadcast use vstd::string::group_string_axioms;

    out.push('"');
    let ghost start = out@;
    for c in it: s.chars()
        invariant
            it.seq() == s@,
            out@ == start + escaped(s@.take(it.index())),
    {
        let ghost before = s@.take(it.index());
        let ghost after = s@.take(it.index() + 1);
        proof {
            assert(after.drop_last() =~= before);
            assert(after.last() == c);
        }
        if c == '"' {
            out.push('\\');
            out.push('"');
            assert(out@ =~= start + (escaped(before) + seq!['\\', '"']));
        } else {
            out.push(c);
            assert(out@ =~= start + escaped(before).push(c));
        }
    }
    out.push('"');
    proof {
        assert(s@.take(s@.len() as int) =~= s@);
        assert(out@ =~= old(out)@ + quoted(s@));
    }
}

/// Appends one piece of text to a run of pieces.
fn push_text(out: &mut Vec<Piece>, text: String)
    ensures
        pieces_model(final(out)@) == pieces_model(old(out)@) + text_piece(text@),
{
    out.push(Piece::Text(text));
    assert(pieces_model(out@) =~= pieces_model(old(out)@) + text_piece(text@));
}

/// Appends the piece that holds the text of a literal to a run of pieces.
fn push_literal(out: &mut Vec<Piece>, text: &str)
    ensures
        pieces_model(final(out)@) == pieces_model(old(out)@) + text_piece(text@),
{
    push_text(out, String::from_str(text));
}

/// Appends the pieces of a value to a run of pieces.
pub fn push_pieces(json: &JSON, out: &mut Vec<Piece>)
    ensures
        pieces_model(final(out)@) == pieces_model(old(out)@) + pieces(json@),
    decreases json,
{
    let ghost before = pieces_model(out@);
    match json {
        JSON::Null => push_literal(out, "null"),
        JSON::Bool(b) => {
            if *b {
                push_literal(out, "true")
            } else {
                push_literal(out, "false")
            }
        },
        JSON::Int(n) => {
            let mut s = String::new();
            push_int(&mut s, *n);
            assert(s@ =~= int_text(*n as int));
            push_text(out, s);
        },
        JSON::Float(x) => {
            out.push(Piece::Float(*x));
            assert(pieces_model(out@) =~= before + seq![PieceModel::Float(*x)]);
        },
        JSON::Binary(b) => {
            push_text(out, repr(b.as_slice()));
        },
        JSON::String(s) => {
            let mut t = String::new();
            push_quoted(&mut t, s.as_str());
            assert(t@ =~= quoted(s@));
            push_text(out, t);
        },
        JSON::Array(v) => {
            push_literal(out, "[");
            let ghost a = array_model(v@);
            let mut i: usize = 0;
            while i < v.len()
                invariant
                    i <= v.len(),
                    json is Array,
                    json->Array_0 == *v,
                    a == array_model(v@),
                    pieces_model(out@) == before + text_piece("["@) + array_pieces(a, i as int),
                decreases v.len() - i,
            {
                let ghost sofar = pieces_model(out@);
                if i > 0 {
                    push_literal(out, ", ");
                }
                proof {
                    vstd::std_specs::vec::axiom_vec_index_decreases(*v, i as int);
                }
                push_pieces(&v[i], out);
                proof {
                    assert(a[i as int] == v@[i as int]@);
                    if i == 0 {
                        assert(array_pieces(a, 0) =~= Seq::<PieceModel>::empty());
                        assert(pieces_model(out@) =~= before + text_piece("["@) + array_pieces(
                            a,
                            1,
                        ));
                    } else {
                        assert(pieces_model(out@) =~= before + text_piece("["@) + (array_pieces(
                            a,
                            i as int,
                        ) + text_piece(", "@) + pieces(a[i as int])));
                    }
                }
                i = i + 1;
            }
            push_literal(out, "]");
            proof {
                assert(pieces_model(out@) =~= before + (text_piece("["@) + array_pieces(
                    a,
                    a.len() as int,
                ) + text_piece("]"@)));
            }
        },
        JSON::Object(v) => {
            push_literal(out, "{");
            let ghost o = object_model(v@);
            let mut i: usize = 0;
            while i < v.len()
                invariant
                    i <= v.len(),
                    json is Object,
                    json->Object_0 == *v,
                    o == object_model(v@),
                    pieces_model(out@) == before + text_piece("{"@) + object_pieces(o, i as int),
                decreases v.len() - i,
            {
                let ghost sofar = pieces_model(out@);
                if i > 0 {
                    push_literal(out, ", ");
                }
                let ghost with_comma = pieces_model(out@);
                let mut k = String::new();
                push_quoted(&mut k, v[i].0.as_str());
                assert(k@ =~= quoted(v@[i as int].0@));
                push_text(out, k);
                push_literal(out, ": ");
                proof {
                    vstd::std_specs::vec::axiom_vec_index_decreases(*v, i as int);
                }
                push_pieces(&v[i].1, out);
                proof {
                    assert(o[i as int] == (v@[i as int].0@, v@[i as int].1@));
                    let entry = entry_pieces(o[i as int].0, o[i as int].1);
                    assert(pieces_model(out@) =~= with_comma + entry);
                    if i == 0 {
                        assert(object_pieces(o, 0) =~= Seq::<PieceModel>::empty());
                        assert(pieces_model(out@) =~= before + text_piece("{"@) + object_pieces(
                            o,
                            1,
                        ));
                    } else {
                        assert(pieces_model(out@) =~= before + text_piece("{"@) + (object_pieces(
                            o,
                            i as int,
                        ) + text_piece(", "@) + entry));
                    }
                }
                i = i + 1;
            }
            push_literal(out, "}");
            proof {
                assert(pieces_model(out@) =~= before + (text_piece("{"@) + object_pieces(
                    o,
                    o.len() as int,
                ) + text_piece("}"@)));
            }
        },
        JSON::Infinity => push_literal(out, "infinity"),
    }
}

/// The pieces of a value.
pub fn json_pieces(json: &JSON) -> (out: Vec<Piece>)
    ensures
        pieces_model(out@) == pieces(json@),
{
    let mut out: Vec<Piece> = Vec::new();
    push_pieces(json, &mut out);
    assert(pieces_model(out@) =~= pieces(json@));
    out
}

/// The numbers among a run of pieces, in order.
pub fn piece_floats(pieces: &Vec<Piece>) -> (floats: Vec<Binary64>)
    ensures
        floats@ == floats_in(pieces_model(pieces@)),
{
    let mut floats: Vec<Binary64> = Vec::new();
    let ghost p = pieces_model(pieces@);
    let mut i: usize = 0;
    while i < pieces.len()
        invariant
            i <= pieces.len(),
            p == pieces_model(pieces@),
            floats@ == floats_in(p.take(i as int)),
        decreases pieces.len() - i,
    {
        proof {
            assert(p.take(i + 1).drop_last() =~= p.take(i as int));
            assert(p.take(i + 1).last() == pieces@[i as int]@);
        }
        match &pieces[i] {
            Piece::Text(_) => {},
            Piece::Float(x) => {
                floats.push(*x);
            },
        }
        i = i + 1;
    }
    assert(p.take(pieces.len() as int) =~= p);
    floats
}

/// The text that a run of pieces becomes when each number is replaced by
/// its text.
pub fn assemble(pieces: &Vec<Piece>, texts: &Vec<String>) -> (text: String)
    requires
        texts@.len() == floats_in(pieces_model(pieces@)).len(),
    ensures
        text@ == assembled(pieces_model(pieces@), texts_model(texts@)),
{
    let mut text = String::new();
    let ghost p = pieces_model(pieces@);
    let ghost t = texts_model(texts@);
    let mut i: usize = 0;
    let mut k: usize = 0;
    while i < pieces.len()
        invariant
            i <= pieces.len(),
            p == pieces_model(pieces@),
            t == texts_model(texts@),
            t.len() == floats_in(p).len(),
            k == floats_in(p.take(i as int)).len(),
            k <= t.len(),
            text@ == assembled(p.take(i as int), t.take(k as int)),
        decreases pieces.len() - i,
    {
        proof {
            assert(p.take(i + 1).drop_last() =~= p.take(i as int));
            assert(p.take(i + 1).last() == pieces@[i as int]@);
            lemma_floats_prefix(p, i + 1);
        }
        match &pieces[i] {
            Piece::Text(s) => {
                text.append(s.as_str());
            },
            Piece::Float(_) => {
                proof {
                    assert(floats_in(p.take(i + 1)).len() == k + 1);
                    assert(t.len() == texts@.len());
                    assert(texts@.len() == texts.len());
                    assert(k < texts.len());
                    assert(t.take(k + 1).drop_last() =~= t.take(k as int));
                    assert(t.take(k + 1).last() == texts@[k as int]@);
                }
                text.append(texts[k].as_str());
                k = k + 1;
            },
        }
        i = i + 1;
    }
    proof {
        assert(p.take(pieces.len() as int) =~= p);
        assert(t.take(k as int) =~= t);
    }
    text
}

/// A run of pieces holds no fewer numbers than any run it begins with.
pub proof fn lemma_floats_prefix(p: Seq<PieceModel>, n: int)
    requires
        0 <= n <= p.len(),
    ensures
        floats_in(p.take(n)).len() <= floats_in(p).len(),
    decreases p.len(),
{
    if n == p.len() {
        assert(p.take(n) =~= p);
    } else {
        lemma_floats_prefix(p.drop_last(), n);
        assert(p.drop_last().take(n) =~= p.take(n));
    }
}

/// The numbers of a value, in the order in which its text form holds them.
pub fn json_floats(json: &JSON) -> (floats: Vec<Binary64>)
    ensures
        floats@ == floats_of(json@),
{
    let pieces = json_pieces(json);
    piece_floats(&pieces)
}

/// The text form of a value. `float_texts` holds the decimal text of each
/// binary64 number of the value, in the order of `json_floats`.
pub fn json_encode(json: &JSON, float_texts: &Vec<String>) -> (text: String)
    requires
        float_texts@.len() == floats_of(json@).len(),
    ensures
        text@ == json_text(json@, texts_model(float_texts@)),
{
    let pieces = json_pieces(json);
    assemble(&pieces, float_texts)
}

} // verus!

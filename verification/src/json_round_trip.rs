//! The text form of a value parses back to the value.
//!
//! This holds of the values whose text form tells all of them: those
//! without binary strings, which are written as strings; without a
//! backslash in a string or a key, which the parser leaves out; and with
//! the entries of every object by ascending key, each key once, as the
//! parser puts them. The decimal text supplied for each binary64 number
//! must be a number with a fraction or an exponent, so that it is read as
//! one.

use vstd::prelude::*;

use crate::json_decode::{
    digits_start, digits_value, done, ended, exponent_part_end, float_literal, fraction_end,
    int_literal, is_punctuation, key_place, object_keys_ascend, object_put, parse_elements,
    parse_entries, parse_value, string_literal, unexpected, Parsed,
};
use crate::json_order::text_sign;
use crate::f64_conv::Binary64;
use crate::json::JsonValue;
use crate::json_encode::{
    array_pieces, assembled, digit_char, entry_pieces, escaped, floats_in, floats_of, int_text,
    json_text, nat_text, object_pieces, pieces, quoted, text_piece, PieceModel,
};
use crate::json_tokens::{
    digits_end, is_digit, is_exponent_mark, is_letter, is_space, lemma_scan_bounds, letters_end,
    string_closed, string_end, token_at, tokens_from, unescaped, without_backslashes, Token,
};

verus! {

/// Whether the text holds no backslash.
pub open spec fn no_backslash(s: Seq<char>) -> bool {
    forall|i: int| 0 <= i < s.len() ==> s[i] != '\\'
}

/// Whether every character of `w` from `i` up to `j` is a digit.
pub open spec fn all_digits(w: Seq<char>, i: int, j: int) -> bool {
    forall|k: int| i <= k < j ==> is_digit(#[trigger] w[k])
}

/// Whether the text `t` stands in `w` at place `i`.
pub open spec fn stands_at(w: Seq<char>, i: int, t: Seq<char>) -> bool {
    0 <= i && i + t.len() <= w.len() && w.subrange(i, i + t.len()) == t
}

/// Whether a number or a word that ends in front of place `j` ends there:
/// the text ends at `j`, or holds a comma or a closing bracket or brace
/// there.
pub open spec fn stops(w: Seq<char>, j: int) -> bool {
    j >= w.len() || w[j] == ',' || w[j] == ']' || w[j] == '}'
}

/// A run of digits that ends at `j` is scanned up to `j`.
pub proof fn lemma_digits_run(w: Seq<char>, i: int, j: int)
    requires
        0 <= i <= j <= w.len(),
        all_digits(w, i, j),
        j == w.len() || !is_digit(w[j]),
    ensures
        digits_end(w, i) == j,
    decreases j - i,
{
    if i < j {
        assert(is_digit(w[i]));
        lemma_digits_run(w, i + 1, j);
    }
}

/// A scan for digits stops at the first character that is none.
pub proof fn lemma_digits_end(w: Seq<char>, i: int)
    requires
        0 <= i <= w.len(),
    ensures
        i <= digits_end(w, i) <= w.len(),
        all_digits(w, i, digits_end(w, i)),
        digits_end(w, i) == w.len() || !is_digit(w[digits_end(w, i)]),
    decreases w.len() - i,
{
    if i < w.len() && is_digit(w[i]) {
        lemma_digits_end(w, i + 1);
        assert forall|k: int| i <= k < digits_end(w, i) implies is_digit(#[trigger] w[k]) by {
            if k > i {
                assert(all_digits(w, i + 1, digits_end(w, i + 1)));
            }
        }
    }
}

/// The digits of a natural number are digits, and stand for the number.
pub proof fn lemma_nat_text(n: nat)
    ensures
        nat_text(n).len() >= 1,
        all_digits(nat_text(n), 0, nat_text(n).len() as int),
        digits_value(nat_text(n), 0, nat_text(n).len() as int) == n,
    decreases n,
{
    let t = nat_text(n);
    if n < 10 {
        assert(t[0] == digit_char(n as int));
        assert(t.len() == 1);
        assert(digits_value(t, 0, 0) == 0);
    } else {
        let head = nat_text(n / 10);
        lemma_nat_text(n / 10);
        assert(t.drop_last() =~= head);
        assert(t.len() == head.len() + 1);
        assert forall|k: int| 0 <= k < t.len() implies is_digit(#[trigger] t[k]) by {
            if k < head.len() {
                assert(t[k] == head[k]);
            }
        }
        lemma_digits_value_same(t, head, 0, head.len() as int);
    }
}

/// The digits of two texts that agree stand for the same number.
pub proof fn lemma_digits_value_same(a: Seq<char>, b: Seq<char>, from: int, to: int)
    requires
        0 <= from <= to,
        to <= a.len(),
        to <= b.len(),
        forall|k: int| from <= k < to ==> a[k] == b[k],
    ensures
        digits_value(a, from, to) == digits_value(b, from, to),
    decreases to - from,
{
    if from < to {
        lemma_digits_value_same(a, b, from, to - 1);
    }
}

/// The digits behind a minus sign stand for the same number as without it.
pub proof fn lemma_digits_value_shift(t: Seq<char>, to: int)
    requires
        0 <= to <= t.len(),
    ensures
        digits_value(seq!['-'] + t, 1, to + 1) == digits_value(t, 0, to),
    decreases to,
{
    if to > 0 {
        lemma_digits_value_shift(t, to - 1);
        assert((seq!['-'] + t)[to] == t[to - 1]);
    }
}

/// The decimal text of an integer stands for that integer.
pub proof fn lemma_int_text_round_trip(n: i64)
    ensures
        int_literal(int_text(n as int)) == Some(n),
        int_text(n as int).len() >= 1,
        n >= 0 ==> all_digits(int_text(n as int), 0, int_text(n as int).len() as int),
        n < 0 ==> int_text(n as int)[0] == '-' && int_text(n as int).len() >= 2 && all_digits(
            int_text(n as int),
            1,
            int_text(n as int).len() as int,
        ),
{
    let t = int_text(n as int);
    if n < 0 {
        let m = (-n) as nat;
        let d = nat_text(m);
        lemma_nat_text(m);
        assert(t =~= seq!['-'] + d);
        assert forall|k: int| 1 <= k < t.len() implies is_digit(#[trigger] t[k]) by {
            assert(t[k] == d[k - 1]);
        }
        lemma_digits_run(t, 1, t.len() as int);
        lemma_digits_value_shift(d, d.len() as int);
    } else {
        lemma_nat_text(n as nat);
        assert(is_digit(t[0]));
        lemma_digits_run(t, 0, t.len() as int);
    }
}

/// The text without backslashes of a text that holds none is the text.
pub proof fn lemma_without_backslashes(s: Seq<char>)
    requires
        no_backslash(s),
    ensures
        without_backslashes(escaped(s)) == s,
    decreases s.len(),
{
    if s.len() > 0 {
        let head = s.drop_last();
        let last = s.last();
        lemma_without_backslashes(head);
        let e = escaped(head);
        if last == '"' {
            let whole = e + seq!['\\', '"'];
            let mid = e.push('\\');
            assert(whole.drop_last() =~= mid);
            assert(mid.drop_last() =~= e);
            assert(without_backslashes(mid) == without_backslashes(e));
            assert(without_backslashes(whole) == without_backslashes(mid).push('"'));
            assert(without_backslashes(whole) =~= s);
        } else {
            assert(e.push(last).drop_last() =~= e);
            assert(without_backslashes(e.push(last)) =~= s);
        }
    }
}

/// The escaped form of a text, from its first character on.
pub proof fn lemma_escaped_front(s: Seq<char>)
    requires
        s.len() > 0,
    ensures
        escaped(s) == (if s[0] == '"' {
            seq!['\\', '"']
        } else {
            seq![s[0]]
        }) + escaped(s.drop_first()),
    decreases s.len(),
{
    let first = if s[0] == '"' {
        seq!['\\', '"']
    } else {
        seq![s[0]]
    };
    if s.len() == 1 {
        assert(s.drop_last() =~= Seq::<char>::empty());
        assert(s.drop_first() =~= Seq::<char>::empty());
        assert(escaped(s) =~= first + escaped(s.drop_first()));
    } else {
        let head = s.drop_last();
        lemma_escaped_front(head);
        assert(head.drop_first() =~= s.drop_first().drop_last());
        assert(s.drop_first().last() == s.last());
        assert(escaped(s) =~= first + escaped(s.drop_first()));
    }
}

/// The scan of a string that stands in `w` behind place `i`, where the
/// string holds no backslash of its own: it ends behind the closing quote.
pub proof fn lemma_scan_escaped(w: Seq<char>, i: int, s: Seq<char>)
    requires
        no_backslash(s),
        stands_at(w, i, escaped(s) + seq!['"']),
    ensures
        string_end(w, i) == i + escaped(s).len() + 1,
        string_closed(w, i),
    decreases s.len(),
{
    let t = escaped(s) + seq!['"'];
    if s.len() == 0 {
        assert(w[i] == t[0]);
    } else {
        lemma_escaped_front(s);
        let rest = s.drop_first();
        let rest_text = escaped(rest) + seq!['"'];
        assert(w[i] == t[0]);
        assert(no_backslash(rest)) by {
            assert forall|k: int| 0 <= k < rest.len() implies rest[k] != '\\' by {
                assert(rest[k] == s[k + 1]);
            }
        }
        if s[0] == '"' {
            assert(w[i + 1] == t[1]);
            assert(w.subrange(i + 2, i + 2 + rest_text.len()) =~= rest_text) by {
                assert(t =~= seq!['\\', '"'] + rest_text);
                assert forall|k: int| 0 <= k < rest_text.len() implies w[i + 2 + k]
                    == rest_text[k] by {
                    assert(w.subrange(i, i + t.len())[k + 2] == t[k + 2]);
                }
            }
            lemma_scan_escaped(w, i + 2, rest);
        } else {
            assert(s[0] != '\\');
            assert(w.subrange(i + 1, i + 1 + rest_text.len()) =~= rest_text) by {
                assert(t =~= seq![s[0]] + rest_text);
                assert forall|k: int| 0 <= k < rest_text.len() implies w[i + 1 + k]
                    == rest_text[k] by {
                    assert(w.subrange(i, i + t.len())[k + 1] == t[k + 1]);
                }
            }
            lemma_scan_escaped(w, i + 1, rest);
        }
    }
}

/// A string without a backslash, between quotes, is a whole string token
/// that stands for the string.
pub proof fn lemma_quoted_round_trip(s: Seq<char>)
    requires
        no_backslash(s),
    ensures
        string_literal(quoted(s)),
        unescaped(quoted(s)) == s,
{
    let q = quoted(s);
    let body = escaped(s) + seq!['"'];
    assert(q =~= seq!['"'] + body);
    assert(q.subrange(1, 1 + body.len() as int) =~= body);
    lemma_scan_escaped(q, 1, s);
    lemma_without_backslashes(s);
    assert(q.subrange(1, q.len() - 1) =~= escaped(s));
}

/// The text of each piece of a run, in order, each number replaced by its
/// text.
pub open spec fn texts_of(p: Seq<PieceModel>, t: Seq<Seq<char>>) -> Seq<Seq<char>>
    decreases p.len(),
{
    if p.len() == 0 {
        Seq::empty()
    } else {
        match p.last() {
            PieceModel::Text(s) => texts_of(p.drop_last(), t).push(s),
            PieceModel::Float(_) => texts_of(p.drop_last(), t.drop_last()).push(t.last()),
        }
    }
}

/// The texts written one behind the other.
pub open spec fn flat(ts: Seq<Seq<char>>) -> Seq<char>
    decreases ts.len(),
{
    if ts.len() == 0 {
        Seq::empty()
    } else {
        flat(ts.drop_last()) + ts.last()
    }
}

/// The text of a run of pieces is the texts of its pieces, one behind the
/// other.
pub proof fn lemma_assembled_flat(p: Seq<PieceModel>, t: Seq<Seq<char>>)
    ensures
        assembled(p, t) == flat(texts_of(p, t)),
        texts_of(p, t).len() == p.len(),
    decreases p.len(),
{
    if p.len() > 0 {
        match p.last() {
            PieceModel::Text(s) => {
                lemma_assembled_flat(p.drop_last(), t);
                assert(texts_of(p, t).drop_last() =~= texts_of(p.drop_last(), t));
            },
            PieceModel::Float(_) => {
                lemma_assembled_flat(p.drop_last(), t.drop_last());
                assert(texts_of(p, t).drop_last() =~= texts_of(p.drop_last(), t.drop_last()));
            },
        }
    }
}

/// The numbers of two runs of pieces, one behind the other.
pub proof fn lemma_floats_in_add(p: Seq<PieceModel>, q: Seq<PieceModel>)
    ensures
        floats_in(p + q) == floats_in(p) + floats_in(q),
    decreases q.len(),
{
    if q.len() == 0 {
        assert(p + q =~= p);
        assert(floats_in(p) + floats_in(q) =~= floats_in(p));
    } else {
        lemma_floats_in_add(p, q.drop_last());
        assert((p + q).drop_last() =~= p + q.drop_last());
        assert((p + q).last() == q.last());
        assert(floats_in(p + q) =~= floats_in(p) + floats_in(q));
    }
}

/// The texts of two runs of pieces, one behind the other: the first run
/// takes the texts of its numbers, the second the rest.
pub proof fn lemma_texts_of_add(p: Seq<PieceModel>, q: Seq<PieceModel>, t: Seq<Seq<char>>)
    requires
        t.len() == floats_in(p + q).len(),
    ensures
        texts_of(p + q, t) == texts_of(p, t.take(floats_in(p).len() as int)) + texts_of(
            q,
            t.skip(floats_in(p).len() as int),
        ),
    decreases q.len(),
{
    let k = floats_in(p).len() as int;
    lemma_floats_in_add(p, q);
    if q.len() == 0 {
        assert(p + q =~= p);
        assert(t.take(k) =~= t);
        assert(texts_of(p, t) + texts_of(q, t.skip(k)) =~= texts_of(p, t));
    } else {
        assert((p + q).drop_last() =~= p + q.drop_last());
        assert((p + q).last() == q.last());
        lemma_floats_in_add(p, q.drop_last());
        match q.last() {
            PieceModel::Text(s) => {
                lemma_texts_of_add(p, q.drop_last(), t);
                assert(texts_of(p + q, t) =~= texts_of(p, t.take(k)) + texts_of(q, t.skip(k)));
            },
            PieceModel::Float(_) => {
                lemma_texts_of_add(p, q.drop_last(), t.drop_last());
                assert(t.drop_last().take(k) =~= t.take(k));
                assert(t.drop_last().skip(k) =~= t.skip(k).drop_last());
                assert(t.skip(k).last() == t.last());
                assert(texts_of(p + q, t) =~= texts_of(p, t.take(k)) + texts_of(q, t.skip(k)));
            },
        }
    }
}

/// The texts written one behind the other, for two runs of texts.
pub proof fn lemma_flat_add(a: Seq<Seq<char>>, b: Seq<Seq<char>>)
    ensures
        flat(a + b) == flat(a) + flat(b),
    decreases b.len(),
{
    if b.len() == 0 {
        assert(a + b =~= a);
        assert(flat(a) + flat(b) =~= flat(a));
    } else {
        lemma_flat_add(a, b.drop_last());
        assert((a + b).drop_last() =~= a + b.drop_last());
        assert((a + b).last() == b.last());
        assert(flat(a + b) =~= flat(a) + flat(b));
    }
}

/// Whether the text is one of the pieces of punctuation: a bracket or a
/// brace, or a comma or a colon with the space behind it.
pub open spec fn is_punct_text(s: Seq<char>) -> bool {
    ||| s == seq!['[']
    ||| s == seq![']']
    ||| s == seq!['{']
    ||| s == seq!['}']
    ||| s == seq![',', ' ']
    ||| s == seq![':', ' ']
}

/// Whether the text is digits, with a minus sign in front or without.
pub open spec fn is_int_text(s: Seq<char>) -> bool {
    ||| s.len() >= 1 && all_digits(s, 0, s.len() as int)
    ||| s.len() >= 2 && s[0] == '-' && all_digits(s, 1, s.len() as int)
}

/// Whether the text is letters.
pub open spec fn is_word(s: Seq<char>) -> bool {
    s.len() >= 1 && forall|k: int| 0 <= k < s.len() ==> is_letter(#[trigger] s[k])
}

/// Whether the text is that of one token, with the space behind a comma or
/// a colon.
pub open spec fn lexes(s: Seq<char>) -> bool {
    is_punct_text(s) || is_int_text(s) || is_word(s) || string_literal(s) || float_literal(s)
}

/// Whether the token of the text ends only where something stops it: a
/// number or a word.
pub open spec fn needs_stop(s: Seq<char>) -> bool {
    !is_punct_text(s) && !string_literal(s)
}

/// Whether the text stops a number or a word in front of it: a comma or a
/// closing bracket or brace.
pub open spec fn closes(s: Seq<char>) -> bool {
    s == seq![']'] || s == seq!['}'] || s == seq![',', ' ']
}

/// The token of a text.
pub open spec fn piece_token(s: Seq<char>) -> (Token, Seq<char>) {
    if is_punct_text(s) {
        (Token::Punctuation, seq![s[0]])
    } else if s[0] == '"' {
        (Token::String, s)
    } else if is_letter(s[0]) {
        (Token::Identifier, s)
    } else if float_literal(s) {
        (Token::Float, s)
    } else {
        (Token::Int, s)
    }
}

/// A run of letters that ends at `j` is scanned up to `j`.
pub proof fn lemma_letters_run(w: Seq<char>, i: int, j: int)
    requires
        0 <= i <= j <= w.len(),
        forall|k: int| i <= k < j ==> is_letter(#[trigger] w[k]),
        j == w.len() || !is_letter(w[j]),
    ensures
        letters_end(w, i) == j,
    decreases j - i,
{
    if i < j {
        assert(is_letter(w[i]));
        lemma_letters_run(w, i + 1, j);
    }
}

/// The digits of a text that stands in `w` are scanned in `w` as in the
/// text, if the scan stops within the text or at a character behind it
/// that is no digit.
pub proof fn lemma_digits_embedded(w: Seq<char>, j: int, s: Seq<char>, k: int)
    requires
        stands_at(w, j, s),
        0 <= k <= s.len(),
        digits_end(s, k) < s.len() || j + s.len() == w.len() || !is_digit(w[j + s.len()]),
    ensures
        digits_end(w, j + k) == j + digits_end(s, k),
{
    lemma_digits_end(s, k);
    let e = digits_end(s, k);
    assert forall|x: int| j + k <= x < j + e implies is_digit(#[trigger] w[x]) by {
        assert(w[x] == w.subrange(j, j + s.len())[x - j]);
        assert(is_digit(s[x - j]));
    }
    if e < s.len() {
        assert(w[j + e] == w.subrange(j, j + s.len())[e]);
    }
    lemma_digits_run(w, j + k, j + e);
}

/// A closed string that stands in `w` is scanned in `w` as in itself.
pub proof fn lemma_string_embedded(w: Seq<char>, j: int, s: Seq<char>, k: int)
    requires
        stands_at(w, j, s),
        0 <= k <= s.len(),
        string_closed(s, k),
    ensures
        string_end(w, j + k) == j + string_end(s, k),
        string_closed(w, j + k),
    decreases s.len() - k,
{
    if k < s.len() {
        assert(w[j + k] == w.subrange(j, j + s.len())[k]);
        if s[k] == '"' {
        } else if s[k] == '\\' {
            if k + 1 < s.len() {
                lemma_string_embedded(w, j, s, k + 2);
            }
        } else {
            lemma_string_embedded(w, j, s, k + 1);
        }
    }
}

/// Tokens are cut from the first character behind `i` that is no white
/// space.
pub proof fn lemma_tokens_skip_space(w: Seq<char>, i: int)
    requires
        0 <= i < w.len(),
        is_space(w[i]),
    ensures
        tokens_from(w, i) == tokens_from(w, i + 1),
{
    lemma_scan_bounds(w, i + 1);
}

/// The first token of a text that begins with a number with a fraction or
/// an exponent, and goes on with a comma, a closing bracket or brace, or
/// not at all.
pub proof fn lemma_float_token(w: Seq<char>, j: int, s: Seq<char>)
    requires
        stands_at(w, j, s),
        float_literal(s),
        stops(w, j + s.len()),
    ensures
        token_at(w, j) == (Token::Float, j + s.len()),
        s.len() >= 1,
        is_digit(s[0]) || s[0] == '-',
{
    let ds = digits_start(s);
    let n = s.len() as int;
    lemma_digits_end(s, ds);
    let k1 = digits_end(s, ds);
    assert(is_digit(s[ds]));
    assert forall|x: int| 0 <= x < n implies w[j + x] == s[x] by {
        assert(w.subrange(j, j + n)[x] == s[x]);
    }
    let k2 = fraction_end(s, k1)->0;
    let k3 = exponent_part_end(s, k2)->0;
    assert(k1 < n);
    lemma_digits_embedded(w, j, s, ds);
    if s[k1] == '.' {
        lemma_digits_end(s, k1 + 1);
        lemma_digits_embedded(w, j, s, k1 + 1);
    }
    if k2 < n {
        assert(is_exponent_mark(s[k2]));
        if k2 + 1 < n && (s[k2 + 1] == '+' || s[k2 + 1] == '-') {
            lemma_digits_end(s, k2 + 2);
            lemma_digits_embedded(w, j, s, k2 + 2);
        } else {
            lemma_digits_end(s, k2 + 1);
            assert(is_digit(s[k2 + 1]));
            lemma_digits_embedded(w, j, s, k2 + 2);
        }
    }
}

/// The tokens of a text that begins with the text of one token, and goes
/// on so that the token ends with it.
pub proof fn lemma_lex_one(w: Seq<char>, j: int, s: Seq<char>)
    requires
        stands_at(w, j, s),
        lexes(s),
        needs_stop(s) ==> stops(w, j + s.len()),
    ensures
        s.len() >= 1,
        tokens_from(w, j) == seq![piece_token(s)] + tokens_from(w, j + s.len()),
{
    let n = s.len() as int;
    assert forall|x: int| 0 <= x < n implies w[j + x] == s[x] by {
        assert(w.subrange(j, j + n)[x] == s[x]);
    }
    if is_punct_text(s) {
        assert(w.subrange(j, j + 1) =~= seq![s[0]]);
        if n == 2 {
            lemma_tokens_skip_space(w, j + 1);
        }
    } else if string_literal(s) {
        lemma_string_embedded(w, j, s, 1);
    } else if float_literal(s) {
        lemma_float_token(w, j, s);
    } else if is_word(s) {
        assert(is_letter(s[0]));
        assert forall|k: int| j + 1 <= k < j + n implies is_letter(#[trigger] w[k]) by {
            assert(is_letter(s[k - j]));
        }
        lemma_letters_run(w, j + 1, j + n);
    } else {
        let ds: int = if s[0] == '-' {
            1
        } else {
            0
        };
        assert(is_digit(s[ds]));
        assert forall|k: int| j + ds <= k < j + n implies is_digit(#[trigger] w[k]) by {
            assert(is_digit(s[k - j]));
        }
        lemma_digits_run(w, j + ds, j + n);
    }
}

/// Whether each text is that of one token, and each number or word is
/// followed by a text that stops it.
pub open spec fn lex_ok(ts: Seq<Seq<char>>) -> bool {
    &&& forall|i: int| 0 <= i < ts.len() ==> lexes(#[trigger] ts[i])
    &&& forall|i: int|
        0 <= i < ts.len() - 1 ==> (needs_stop(#[trigger] ts[i]) ==> closes(ts[i + 1]))
}

/// The token of each text.
pub open spec fn tokens_of_texts(ts: Seq<Seq<char>>) -> Seq<(Token, Seq<char>)> {
    ts.map_values(|s: Seq<char>| piece_token(s))
}

/// The tokens of a text that begins with the texts of tokens, one behind
/// the other: the token of each, and then the tokens of what follows.
pub proof fn lemma_lex(w: Seq<char>, i: int, ts: Seq<Seq<char>>)
    requires
        stands_at(w, i, flat(ts)),
        lex_ok(ts),
        ts.len() > 0 && needs_stop(ts.last()) ==> stops(w, i + flat(ts).len()),
    ensures
        tokens_from(w, i) == tokens_of_texts(ts) + tokens_from(w, i + flat(ts).len()),
    decreases ts.len(),
{
    if ts.len() == 0 {
        assert(tokens_of_texts(ts) + tokens_from(w, i) =~= tokens_from(w, i));
    } else {
        let head = ts.drop_last();
        let last = ts.last();
        let a = flat(head);
        let whole = flat(ts);
        assert(w.subrange(i, i + a.len()) =~= a) by {
            assert forall|x: int| 0 <= x < a.len() implies w[i + x] == a[x] by {
                assert(w.subrange(i, i + whole.len())[x] == whole[x]);
            }
        }
        assert(w.subrange(i + a.len(), i + a.len() + last.len()) =~= last) by {
            assert forall|x: int| 0 <= x < last.len() implies w[i + a.len() + x] == last[x] by {
                assert(w.subrange(i, i + whole.len())[a.len() + x] == whole[a.len() + x]);
            }
        }
        assert(lexes(ts[ts.len() - 1]));
        assert(lex_ok(head)) by {
            assert forall|x: int| 0 <= x < head.len() implies lexes(#[trigger] head[x]) by {
                assert(lexes(ts[x]));
            }
            assert forall|x: int| 0 <= x < head.len() - 1 && needs_stop(
                #[trigger] head[x],
            ) implies closes(head[x + 1]) by {
                assert(needs_stop(ts[x]) ==> closes(ts[x + 1]));
            }
        }
        if head.len() > 0 && needs_stop(head.last()) {
            assert(needs_stop(ts[head.len() - 1]) ==> closes(ts[head.len() - 1 + 1]));
            assert(w[i + a.len()] == w.subrange(i + a.len(), i + a.len() + last.len())[0]);
        }
        lemma_lex(w, i, head);
        lemma_lex_one(w, i + a.len(), last);
        assert(tokens_of_texts(ts) =~= tokens_of_texts(head).push(piece_token(last)));
        assert(tokens_of_texts(head).push(piece_token(last)) + tokens_from(
            w,
            i + whole.len(),
        ) =~= tokens_of_texts(head) + (seq![piece_token(last)] + tokens_from(
            w,
            i + whole.len(),
        )));
    }
}

/// Two runs of texts that can be cut into tokens can be cut into tokens
/// one behind the other, if the second stops the last token of the first.
pub proof fn lemma_lex_ok_add(x: Seq<Seq<char>>, y: Seq<Seq<char>>)
    requires
        lex_ok(x),
        lex_ok(y),
        x.len() > 0 && y.len() > 0 && needs_stop(x.last()) ==> closes(y[0]),
    ensures
        lex_ok(x + y),
{
    let z = x + y;
    assert forall|i: int| 0 <= i < z.len() implies lexes(#[trigger] z[i]) by {
        if i < x.len() {
            assert(lexes(x[i]));
        } else {
            assert(lexes(y[i - x.len()]));
        }
    }
    assert forall|i: int| 0 <= i < z.len() - 1 && needs_stop(#[trigger] z[i]) implies closes(
        z[i + 1],
    ) by {
        if i < x.len() - 1 {
            assert(needs_stop(x[i]) ==> closes(x[i + 1]));
        } else if i >= x.len() {
            assert(needs_stop(y[i - x.len()]) ==> closes(y[i - x.len() + 1]));
        }
    }
}

/// The characters of the literal texts of the text form.
pub proof fn lemma_literals()
    ensures
        "["@ == seq!['['],
        "]"@ == seq![']'],
        "{"@ == seq!['{'],
        "}"@ == seq!['}'],
        ", "@ == seq![',', ' '],
        ": "@ == seq![':', ' '],
        "null"@ == seq!['n', 'u', 'l', 'l'],
        "true"@ == seq!['t', 'r', 'u', 'e'],
        "false"@ == seq!['f', 'a', 'l', 's', 'e'],
        "infinity"@ == seq!['i', 'n', 'f', 'i', 'n', 'i', 't', 'y'],
{
    reveal_strlit("[");
    reveal_strlit("]");
    reveal_strlit("{");
    reveal_strlit("}");
    reveal_strlit(", ");
    reveal_strlit(": ");
    reveal_strlit("null");
    reveal_strlit("true");
    reveal_strlit("false");
    reveal_strlit("infinity");
    assert("["@ =~= seq!['[']);
    assert("]"@ =~= seq![']']);
    assert("{"@ =~= seq!['{']);
    assert("}"@ =~= seq!['}']);
    assert(", "@ =~= seq![',', ' ']);
    assert(": "@ =~= seq![':', ' ']);
    assert("null"@ =~= seq!['n', 'u', 'l', 'l']);
    assert("true"@ =~= seq!['t', 'r', 'u', 'e']);
    assert("false"@ =~= seq!['f', 'a', 'l', 's', 'e']);
    assert("infinity"@ =~= seq!['i', 'n', 'f', 'i', 'n', 'i', 't', 'y']);
}

/// Whether the text form of a value tells all of it: the value holds no
/// binary string and no backslash in a string or a key, and every object
/// in it holds its entries by ascending key, each key once.
pub open spec fn plain(v: JsonValue) -> bool
    decreases v,
{
    match v {
        JsonValue::Binary(_) => false,
        JsonValue::String(s) => no_backslash(s),
        JsonValue::Array(a) => forall|i: int| 0 <= i < a.len() ==> plain(#[trigger] a[i]),
        JsonValue::Object(o) => object_keys_ascend(o) && forall|i: int|
            0 <= i < o.len() ==> no_backslash((#[trigger] o[i]).0) && plain(o[i].1),
        _ => true,
    }
}

/// Whether each text is a number with a fraction or an exponent.
pub open spec fn float_texts(t: Seq<Seq<char>>) -> bool {
    forall|i: int| 0 <= i < t.len() ==> float_literal(#[trigger] t[i])
}

/// The text and the numbers of a single piece of text.
pub proof fn lemma_text_piece(s: Seq<char>, t: Seq<Seq<char>>)
    ensures
        texts_of(text_piece(s), t) == seq![s],
        floats_in(text_piece(s)) == Seq::<Binary64>::empty(),
{
    let p = text_piece(s);
    let none = Seq::<PieceModel>::empty();
    assert(p.drop_last() =~= none);
    assert(p.last() == PieceModel::Text(s));
    assert(texts_of(none, t) =~= Seq::<Seq<char>>::empty());
    assert(floats_in(none) =~= Seq::<Binary64>::empty());
    assert(texts_of(p, t) == texts_of(p.drop_last(), t).push(s));
    assert(floats_in(p) == floats_in(p.drop_last()));
    assert(texts_of(p, t) =~= seq![s]);
    assert(floats_in(p) =~= Seq::<Binary64>::empty());
}

/// The texts and the numbers of a run of pieces between two pieces of
/// text.
pub proof fn lemma_between(open: Seq<char>, p: Seq<PieceModel>, close: Seq<char>, t: Seq<Seq<char>>)
    requires
        t.len() == floats_in(p).len(),
    ensures
        texts_of(text_piece(open) + p + text_piece(close), t) == seq![open] + texts_of(p, t)
            + seq![close],
        floats_in(text_piece(open) + p + text_piece(close)) == floats_in(p),
{
    let a = text_piece(open);
    let b = text_piece(close);
    lemma_text_piece(open, t.take(0));
    lemma_text_piece(close, t.skip(t.len() as int));
    lemma_floats_in_add(a, p);
    lemma_floats_in_add(a + p, b);
    assert(floats_in(a + p + b) =~= floats_in(p));
    lemma_texts_of_add(a + p, b, t);
    assert(t.take(t.len() as int) =~= t);
    lemma_texts_of_add(a, p, t);
    assert(t.skip(0) =~= t);
}

/// The texts and the numbers of the first elements of an array and the
/// next one.
pub proof fn lemma_array_step(a: Seq<JsonValue>, m: int, t: Seq<Seq<char>>)
    requires
        2 <= m <= a.len(),
        t.len() == floats_in(array_pieces(a, m)).len(),
    ensures
        floats_in(array_pieces(a, m)) == floats_in(array_pieces(a, m - 1)) + floats_of(a[m - 1]),
        texts_of(array_pieces(a, m), t) == texts_of(
            array_pieces(a, m - 1),
            t.take(floats_in(array_pieces(a, m - 1)).len() as int),
        ) + seq![", "@] + texts_of(
            pieces(a[m - 1]),
            t.skip(floats_in(array_pieces(a, m - 1)).len() as int),
        ),
{
    let head = array_pieces(a, m - 1);
    let comma = text_piece(", "@);
    let last = pieces(a[m - 1]);
    let k = floats_in(head).len() as int;
    lemma_text_piece(", "@, t.take(k).skip(k));
    lemma_floats_in_add(head, comma);
    lemma_floats_in_add(head + comma, last);
    assert(floats_in(head + comma) =~= floats_in(head));
    lemma_texts_of_add(head + comma, last, t);
    lemma_texts_of_add(head, comma, t.take(k));
    assert(t.take(k).take(k) =~= t.take(k));
}

/// The texts and the numbers of the first entries of an object and the
/// next one.
pub proof fn lemma_object_step(o: Seq<(Seq<char>, JsonValue)>, m: int, t: Seq<Seq<char>>)
    requires
        2 <= m <= o.len(),
        t.len() == floats_in(object_pieces(o, m)).len(),
    ensures
        floats_in(object_pieces(o, m)) == floats_in(object_pieces(o, m - 1)) + floats_in(
            entry_pieces(o[m - 1].0, o[m - 1].1),
        ),
        texts_of(object_pieces(o, m), t) == texts_of(
            object_pieces(o, m - 1),
            t.take(floats_in(object_pieces(o, m - 1)).len() as int),
        ) + seq![", "@] + texts_of(
            entry_pieces(o[m - 1].0, o[m - 1].1),
            t.skip(floats_in(object_pieces(o, m - 1)).len() as int),
        ),
{
    let head = object_pieces(o, m - 1);
    let comma = text_piece(", "@);
    let last = entry_pieces(o[m - 1].0, o[m - 1].1);
    let k = floats_in(head).len() as int;
    lemma_text_piece(", "@, t.take(k).skip(k));
    lemma_floats_in_add(head, comma);
    lemma_floats_in_add(head + comma, last);
    assert(floats_in(head + comma) =~= floats_in(head));
    lemma_texts_of_add(head + comma, last, t);
    lemma_texts_of_add(head, comma, t.take(k));
    assert(t.take(k).take(k) =~= t.take(k));
}

/// The texts and the numbers of one entry of an object.
pub proof fn lemma_entry(key: Seq<char>, value: JsonValue, t: Seq<Seq<char>>)
    requires
        t.len() == floats_of(value).len(),
    ensures
        floats_in(entry_pieces(key, value)) == floats_of(value),
        texts_of(entry_pieces(key, value), t) == seq![quoted(key), ": "@] + texts_of(
            pieces(value),
            t,
        ),
{
    let k = text_piece(quoted(key));
    let c = text_piece(": "@);
    let p = pieces(value);
    lemma_text_piece(quoted(key), t.take(0).take(0));
    lemma_text_piece(": "@, t.take(0).skip(0));
    lemma_floats_in_add(k, c);
    lemma_floats_in_add(k + c, p);
    assert(floats_in(k + c + p) =~= floats_in(p));
    lemma_texts_of_add(k + c, p, t);
    lemma_texts_of_add(k, c, t.take(0));
    assert(t.skip(0) =~= t);
    assert(seq![quoted(key)] + seq![": "@] =~= seq![quoted(key), ": "@]);
}

/// A part of texts that are numbers with a fraction or an exponent is such
/// texts.
pub proof fn lemma_float_texts_split(t: Seq<Seq<char>>, k: int)
    requires
        float_texts(t),
        0 <= k <= t.len(),
    ensures
        float_texts(t.take(k)),
        float_texts(t.skip(k)),
{
    assert forall|i: int| 0 <= i < t.take(k).len() implies float_literal(#[trigger] t.take(k)[i]) by {
        assert(float_literal(t[i]));
    }
    assert forall|i: int| 0 <= i < t.skip(k).len() implies float_literal(#[trigger] t.skip(k)[i]) by {
        assert(float_literal(t[i + k]));
    }
}

/// Whether a value can begin with the text: it is that of one token, and
/// neither closes anything nor is the colon.
pub open spec fn starts_value(s: Seq<char>) -> bool {
    lexes(s) && !closes(s) && s != seq![':', ' ']
}

/// The texts of the pieces of a value can be cut into tokens.
pub proof fn lemma_value_lex(v: JsonValue, t: Seq<Seq<char>>)
    requires
        plain(v),
        float_texts(t),
        t.len() == floats_of(v).len(),
    ensures
        lex_ok(texts_of(pieces(v), t)),
        texts_of(pieces(v), t).len() >= 1,
        starts_value(texts_of(pieces(v), t)[0]),
    decreases v, 0int,
{
    lemma_literals();
    match v {
        JsonValue::Null => {
            lemma_text_piece("null"@, t);
            assert(is_word("null"@));
            assert("null"@.len() >= 4);
        },
        JsonValue::Bool(b) => {
            if b {
                lemma_text_piece("true"@, t);
                assert(is_word("true"@));
            assert("true"@.len() >= 4);
            } else {
                lemma_text_piece("false"@, t);
                assert(is_word("false"@));
            assert("false"@.len() >= 4);
            }
        },
        JsonValue::Int(n) => {
            lemma_text_piece(int_text(n as int), t);
            lemma_int_text_round_trip(n);
        },
        JsonValue::Float(x) => {
            let p = pieces(v);
            assert(p.drop_last() =~= Seq::<PieceModel>::empty());
            assert(floats_in(p.drop_last()) =~= Seq::<Binary64>::empty());
            assert(floats_in(p) =~= seq![x]);
            assert(texts_of(p.drop_last(), t.drop_last()) =~= Seq::<Seq<char>>::empty());
            assert(texts_of(p, t) =~= seq![t[0]]);
            assert(float_literal(t[0]));
        },
        JsonValue::Binary(_) => {},
        JsonValue::String(s) => {
            lemma_text_piece(quoted(s), t);
            lemma_quoted_round_trip(s);
        },
        JsonValue::Array(a) => {
            let inner = array_pieces(a, a.len() as int);
            lemma_floats_in_add(text_piece("["@), inner);
            lemma_floats_in_add(text_piece("["@) + inner, text_piece("]"@));
            lemma_text_piece("["@, t);
            lemma_text_piece("]"@, t);
            lemma_between("["@, inner, "]"@, t);
            if a.len() > 0 {
                lemma_array_lex(a, a.len() as int, t);
            } else {
                assert(texts_of(inner, t) =~= Seq::<Seq<char>>::empty());
            }
            let x = texts_of(inner, t);
            lemma_lex_ok_add(seq!["["@], x);
            lemma_lex_ok_add(seq!["["@] + x, seq!["]"@]);
            assert((seq!["["@] + x + seq!["]"@])[0] == "["@);
            assert("["@[0] == '[' && "["@.len() == 1);
        },
        JsonValue::Object(o) => {
            let inner = object_pieces(o, o.len() as int);
            lemma_floats_in_add(text_piece("{"@), inner);
            lemma_floats_in_add(text_piece("{"@) + inner, text_piece("}"@));
            lemma_text_piece("{"@, t);
            lemma_text_piece("}"@, t);
            lemma_between("{"@, inner, "}"@, t);
            if o.len() > 0 {
                lemma_object_lex(o, o.len() as int, t);
            } else {
                assert(texts_of(inner, t) =~= Seq::<Seq<char>>::empty());
            }
            let x = texts_of(inner, t);
            lemma_lex_ok_add(seq!["{"@], x);
            lemma_lex_ok_add(seq!["{"@] + x, seq!["}"@]);
            assert((seq!["{"@] + x + seq!["}"@])[0] == "{"@);
            assert("{"@[0] == '{' && "{"@.len() == 1);
        },
        JsonValue::Infinity => {
            lemma_text_piece("infinity"@, t);
            assert(is_word("infinity"@));
            assert("infinity"@.len() >= 4);
        },
    }
}

/// The texts of the pieces of the first `m` elements of an array can be
/// cut into tokens.
pub proof fn lemma_array_lex(a: Seq<JsonValue>, m: int, t: Seq<Seq<char>>)
    requires
        1 <= m <= a.len(),
        forall|i: int| 0 <= i < a.len() ==> plain(#[trigger] a[i]),
        float_texts(t),
        t.len() == floats_in(array_pieces(a, m)).len(),
    ensures
        lex_ok(texts_of(array_pieces(a, m), t)),
        texts_of(array_pieces(a, m), t).len() >= 1,
        starts_value(texts_of(array_pieces(a, m), t)[0]),
    decreases a, m,
{
    lemma_literals();
    if m == 1 {
        lemma_value_lex(a[0], t);
    } else {
        lemma_array_step(a, m, t);
        let k = floats_in(array_pieces(a, m - 1)).len() as int;
        lemma_float_texts_split(t, k);
        lemma_array_lex(a, m - 1, t.take(k));
        lemma_value_lex(a[m - 1], t.skip(k));
        let x = texts_of(array_pieces(a, m - 1), t.take(k));
        let y = texts_of(pieces(a[m - 1]), t.skip(k));
        lemma_lex_ok_add(x, seq![", "@]);
        lemma_lex_ok_add(x + seq![", "@], y);
    }
}

/// The texts of the pieces of the first `m` entries of an object can be
/// cut into tokens.
pub proof fn lemma_object_lex(o: Seq<(Seq<char>, JsonValue)>, m: int, t: Seq<Seq<char>>)
    requires
        1 <= m <= o.len(),
        forall|i: int| 0 <= i < o.len() ==> no_backslash((#[trigger] o[i]).0) && plain(o[i].1),
        float_texts(t),
        t.len() == floats_in(object_pieces(o, m)).len(),
    ensures
        lex_ok(texts_of(object_pieces(o, m), t)),
        texts_of(object_pieces(o, m), t).len() >= 1,
    decreases o, m,
{
    lemma_literals();
    if m == 1 {
        lemma_entry_lex(o, 0, t);
    } else {
        lemma_object_step(o, m, t);
        let k = floats_in(object_pieces(o, m - 1)).len() as int;
        lemma_float_texts_split(t, k);
        lemma_object_lex(o, m - 1, t.take(k));
        lemma_floats_in_entry(o[m - 1].0, o[m - 1].1);
        lemma_entry_lex(o, m - 1, t.skip(k));
        let x = texts_of(object_pieces(o, m - 1), t.take(k));
        let y = texts_of(entry_pieces(o[m - 1].0, o[m - 1].1), t.skip(k));
        lemma_lex_ok_add(x, seq![", "@]);
        lemma_lex_ok_add(x + seq![", "@], y);
    }
}

/// The numbers of one entry of an object are those of its value.
pub proof fn lemma_floats_in_entry(key: Seq<char>, value: JsonValue)
    ensures
        floats_in(entry_pieces(key, value)) == floats_of(value),
{
    let k = text_piece(quoted(key));
    let c = text_piece(": "@);
    let p = pieces(value);
    lemma_text_piece(quoted(key), Seq::empty());
    lemma_text_piece(": "@, Seq::empty());
    lemma_floats_in_add(k, c);
    lemma_floats_in_add(k + c, p);
    assert(floats_in(k + c + p) =~= floats_in(p));
}

/// The texts of the pieces of one entry of an object can be cut into
/// tokens.
pub proof fn lemma_entry_lex(o: Seq<(Seq<char>, JsonValue)>, i: int, t: Seq<Seq<char>>)
    requires
        0 <= i < o.len(),
        no_backslash(o[i].0),
        plain(o[i].1),
        float_texts(t),
        t.len() == floats_in(entry_pieces(o[i].0, o[i].1)).len(),
    ensures
        lex_ok(texts_of(entry_pieces(o[i].0, o[i].1), t)),
        texts_of(entry_pieces(o[i].0, o[i].1), t).len() >= 1,
    decreases o, 0int,
{
    lemma_literals();
    let key = o[i].0;
    let value = o[i].1;
    lemma_floats_in_entry(key, value);
    lemma_entry(key, value, t);
    lemma_value_lex(value, t);
    lemma_quoted_round_trip(key);
    let head = seq![quoted(key), ": "@];
    assert(lex_ok(head)) by {
        assert(head[0] == quoted(key));
        assert(head[1] == ": "@);
    }
    lemma_lex_ok_add(head, texts_of(pieces(value), t));
}

/// Whether the tokens of the texts `ts` stand in `tokens` at place `q`.
pub open spec fn tokens_at(tokens: Seq<(Token, Seq<char>)>, q: int, ts: Seq<Seq<char>>) -> bool {
    &&& 0 <= q
    &&& q + ts.len() <= tokens.len()
    &&& forall|i: int| 0 <= i < ts.len() ==> tokens[q + i] == piece_token(#[trigger] ts[i])
}

/// Whether the numbers `fs` stand in `floats` at place `f`.
pub open spec fn floats_at(floats: Seq<Binary64>, f: int, fs: Seq<Binary64>) -> bool {
    &&& 0 <= f
    &&& f + fs.len() <= floats.len()
    &&& forall|i: int| 0 <= i < fs.len() ==> floats[f + i] == #[trigger] fs[i]
}

/// Tokens that stand somewhere stand there part by part.
pub proof fn lemma_tokens_at_add(
    tokens: Seq<(Token, Seq<char>)>,
    q: int,
    x: Seq<Seq<char>>,
    y: Seq<Seq<char>>,
)
    requires
        tokens_at(tokens, q, x + y),
    ensures
        tokens_at(tokens, q, x),
        tokens_at(tokens, q + x.len(), y),
{
    let z = x + y;
    assert forall|i: int| 0 <= i < x.len() implies tokens[q + i] == piece_token(#[trigger] x[i]) by {
        assert(z[i] == x[i]);
        assert(tokens[q + i] == piece_token(z[i]));
    }
    assert forall|i: int| 0 <= i < y.len() implies tokens[q + x.len() + i] == piece_token(
        #[trigger] y[i],
    ) by {
        assert(z[x.len() + i] == y[i]);
        assert(tokens[q + (x.len() + i)] == piece_token(z[x.len() + i]));
    }
}

/// Numbers that stand somewhere stand there part by part.
pub proof fn lemma_floats_at_add(floats: Seq<Binary64>, f: int, x: Seq<Binary64>, y: Seq<Binary64>)
    requires
        floats_at(floats, f, x + y),
    ensures
        floats_at(floats, f, x),
        floats_at(floats, f + x.len(), y),
{
    let z = x + y;
    assert forall|i: int| 0 <= i < x.len() implies floats[f + i] == #[trigger] x[i] by {
        assert(z[i] == x[i]);
    }
    assert forall|i: int| 0 <= i < y.len() implies floats[f + x.len() + i] == #[trigger] y[i] by {
        assert(z[x.len() + i] == y[i]);
        assert(floats[f + (x.len() + i)] == z[x.len() + i]);
    }
}

/// How the parser goes on behind an element of an array, with the
/// elements `acc` read: it ends the array at a closing bracket, and reads
/// the next element behind a comma.
pub open spec fn after_element(
    tokens: Seq<(Token, Seq<char>)>,
    r: int,
    floats: Seq<Binary64>,
    g: int,
    acc: Seq<JsonValue>,
) -> Parsed {
    if r >= tokens.len() {
        ended(r, g)
    } else if is_punctuation(tokens, r, ']') {
        done(JsonValue::Array(acc), r + 1, g)
    } else if is_punctuation(tokens, r, ',') {
        parse_elements(tokens, r + 1, floats, g, acc)
    } else {
        unexpected(tokens, r, g)
    }
}

/// How the parser goes on behind an entry of an object, with the entries
/// `acc` read: it ends the object at a closing brace, and reads the next
/// entry behind a comma.
pub open spec fn after_entry(
    tokens: Seq<(Token, Seq<char>)>,
    r: int,
    floats: Seq<Binary64>,
    g: int,
    acc: Seq<(Seq<char>, JsonValue)>,
) -> Parsed {
    if r >= tokens.len() {
        ended(r, g)
    } else if is_punctuation(tokens, r, '}') {
        done(JsonValue::Object(acc), r + 1, g)
    } else if is_punctuation(tokens, r, ',') {
        parse_entries(tokens, r + 1, floats, g, acc)
    } else {
        unexpected(tokens, r, g)
    }
}

/// Digits alone are no number with a fraction or an exponent.
pub proof fn lemma_int_text_no_float(s: Seq<char>)
    requires
        is_int_text(s),
    ensures
        !float_literal(s),
        !is_punct_text(s),
        s[0] != '"',
        !is_letter(s[0]),
{
    let ds = digits_start(s);
    assert(is_digit(s[ds]));
    lemma_digits_run(s, ds, s.len() as int);
}

/// The token of each kind of text.
pub proof fn lemma_piece_tokens(s: Seq<char>)
    requires
        lexes(s),
    ensures
        is_int_text(s) ==> piece_token(s) == (Token::Int, s),
        float_literal(s) ==> piece_token(s) == (Token::Float, s),
        is_word(s) ==> piece_token(s) == (Token::Identifier, s),
        string_literal(s) ==> piece_token(s) == (Token::String, s),
        is_punct_text(s) ==> piece_token(s) == (Token::Punctuation, seq![s[0]]),
        starts_value(s) ==> piece_token(s) != (Token::Punctuation, seq![']']) && piece_token(s) != (
            Token::Punctuation,
            seq!['}'],
        ) && piece_token(s) != (Token::Punctuation, seq![',']) && piece_token(s) != (
            Token::Punctuation,
            seq![':'],
        ),
{
    if is_int_text(s) {
        lemma_int_text_no_float(s);
    }
    if float_literal(s) {
        let ds = digits_start(s);
        lemma_digits_end(s, ds);
        assert(is_digit(s[ds]));
        assert(s[0] == '-' || is_digit(s[0]));
        assert(!is_punct_text(s)) by {
            if is_punct_text(s) {
                assert(s[0] == '[' || s[0] == ']' || s[0] == '{' || s[0] == '}' || s[0] == ','
                    || s[0] == ':');
            }
        }
    }
    if is_word(s) {
        assert(is_letter(s[0]));
        assert(!is_punct_text(s)) by {
            if is_punct_text(s) {
                assert(s[0] == '[' || s[0] == ']' || s[0] == '{' || s[0] == '}' || s[0] == ','
                    || s[0] == ':');
            }
        }
    }
    if string_literal(s) {
        assert(!is_punct_text(s)) by {
            if is_punct_text(s) {
                assert(s[0] == '[' || s[0] == ']' || s[0] == '{' || s[0] == '}' || s[0] == ','
                    || s[0] == ':');
            }
        }
    }
    if starts_value(s) && is_punct_text(s) {
        assert(s == seq!['['] || s == seq!['{']);
        let tok = piece_token(s).1;
        assert(tok[0] == s[0]);
        assert(seq![']'][0] == ']');
        assert(seq!['}'][0] == '}');
        assert(seq![','][0] == ',');
        assert(seq![':'][0] == ':');
    }
}

/// An entry whose key is above all the keys read so far goes behind them.
pub proof fn lemma_key_place_end(acc: Seq<(Seq<char>, JsonValue)>, key: Seq<char>, j: int)
    requires
        0 <= j <= acc.len(),
        forall|x: int| j <= x < acc.len() ==> text_sign((#[trigger] acc[x]).0, key) < 0,
    ensures
        key_place(acc, key, j) == acc.len(),
    decreases acc.len() - j,
{
    if j < acc.len() {
        assert(text_sign(acc[j].0, key) < 0);
        lemma_key_place_end(acc, key, j + 1);
    }
}

/// Putting the next entry of ascending entries behind those in front of it
/// gives the entries up to it.
pub proof fn lemma_put_next(o: Seq<(Seq<char>, JsonValue)>, i: int)
    requires
        object_keys_ascend(o),
        0 <= i < o.len(),
    ensures
        object_put(o.take(i), o[i].0, o[i].1) == o.take(i + 1),
{
    let acc = o.take(i);
    assert forall|x: int| 0 <= x < acc.len() implies text_sign((#[trigger] acc[x]).0, o[i].0)
        < 0 by {
        assert(acc[x] == o[x]);
    }
    lemma_key_place_end(acc, o[i].0, 0);
    assert(acc.insert(i, (o[i].0, o[i].1)) =~= o.take(i + 1));
}

/// The parser reads the tokens of the text form of a value as the value.
pub proof fn lemma_value_parse(
    v: JsonValue,
    t: Seq<Seq<char>>,
    tokens: Seq<(Token, Seq<char>)>,
    p: int,
    floats: Seq<Binary64>,
    f: int,
)
    requires
        plain(v),
        float_texts(t),
        t.len() == floats_of(v).len(),
        tokens_at(tokens, p, texts_of(pieces(v), t)),
        floats_at(floats, f, floats_of(v)),
    ensures
        parse_value(tokens, p, floats, f) == done(
            v,
            p + texts_of(pieces(v), t).len(),
            f + floats_of(v).len(),
        ),
    decreases v, 0int,
{
    lemma_literals();
    lemma_value_lex(v, t);
    let ts = texts_of(pieces(v), t);
    assert(tokens[p + 0] == piece_token(ts[0]));
    lemma_piece_tokens(ts[0]);
    match v {
        JsonValue::Null => {
            lemma_text_piece("null"@, t);
            assert(is_word("null"@));
        },
        JsonValue::Bool(b) => {
            assert("null"@[0] == 'n');
            if b {
                lemma_text_piece("true"@, t);
                assert(is_word("true"@));
                assert("true"@[0] == 't');
            } else {
                lemma_text_piece("false"@, t);
                assert(is_word("false"@));
                assert("false"@[0] == 'f');
                assert("true"@[0] == 't');
            }
        },
        JsonValue::Int(n) => {
            lemma_text_piece(int_text(n as int), t);
            lemma_int_text_round_trip(n);
        },
        JsonValue::Float(x) => {
            let pc = pieces(v);
            assert(pc.drop_last() =~= Seq::<PieceModel>::empty());
            assert(floats_in(pc.drop_last()) =~= Seq::<Binary64>::empty());
            assert(floats_in(pc) =~= seq![x]);
            assert(texts_of(pc.drop_last(), t.drop_last()) =~= Seq::<Seq<char>>::empty());
            assert(ts =~= seq![t[0]]);
            assert(float_literal(t[0]));
            assert(floats[f + 0] == floats_of(v)[0]);
        },
        JsonValue::Binary(_) => {},
        JsonValue::String(s) => {
            lemma_text_piece(quoted(s), t);
            lemma_quoted_round_trip(s);
        },
        JsonValue::Array(a) => {
            let n = a.len() as int;
            let inner = array_pieces(a, n);
            lemma_floats_in_add(text_piece("["@), inner);
            lemma_floats_in_add(text_piece("["@) + inner, text_piece("]"@));
            lemma_text_piece("["@, t);
            lemma_text_piece("]"@, t);
            lemma_between("["@, inner, "]"@, t);
            let x = texts_of(inner, t);
            lemma_tokens_at_add(tokens, p, seq!["["@] + x, seq!["]"@]);
            lemma_tokens_at_add(tokens, p, seq!["["@], x);
            assert(tokens[p + 0] == piece_token(seq!["["@][0]));
            assert(tokens[p + 1 + x.len() + 0] == piece_token(seq!["]"@][0]));
            assert(is_punct_text("["@) && is_punct_text("]"@));
            assert(seq!['['][0] == '[' && seq![']'][0] == ']');
            if n == 0 {
                assert(x =~= Seq::<Seq<char>>::empty());
                assert(a =~= Seq::<JsonValue>::empty());
            } else {
                lemma_array_lex(a, n, t);
                assert(tokens[p + 1 + 0] == piece_token(x[0]));
                lemma_piece_tokens(x[0]);
                lemma_elements_parse(a, n, t, tokens, p + 1, floats, f);
                assert(a.take(n) =~= a);
            }
        },
        JsonValue::Object(o) => {
            let n = o.len() as int;
            let inner = object_pieces(o, n);
            lemma_floats_in_add(text_piece("{"@), inner);
            lemma_floats_in_add(text_piece("{"@) + inner, text_piece("}"@));
            lemma_text_piece("{"@, t);
            lemma_text_piece("}"@, t);
            lemma_between("{"@, inner, "}"@, t);
            let x = texts_of(inner, t);
            lemma_tokens_at_add(tokens, p, seq!["{"@] + x, seq!["}"@]);
            lemma_tokens_at_add(tokens, p, seq!["{"@], x);
            assert(tokens[p + 0] == piece_token(seq!["{"@][0]));
            assert(tokens[p + 1 + x.len() + 0] == piece_token(seq!["}"@][0]));
            assert(is_punct_text("{"@) && is_punct_text("}"@));
            assert(seq!['{'][0] == '{' && seq!['}'][0] == '}' && seq!['['][0] == '[');
            if n == 0 {
                assert(x =~= Seq::<Seq<char>>::empty());
                assert(o =~= Seq::<(Seq<char>, JsonValue)>::empty());
            } else {
                lemma_entries_parse(o, n, t, tokens, p + 1, floats, f);
                assert(o.take(n) =~= o);
                assert(o.take(0) =~= Seq::<(Seq<char>, JsonValue)>::empty());
                lemma_object_first(o, n, t);
                assert(tokens[p + 1 + 0] == piece_token(x[0]));
                lemma_quoted_round_trip(o[0].0);
                lemma_piece_tokens(x[0]);
            }
        },
        JsonValue::Infinity => {
            lemma_text_piece("infinity"@, t);
            assert(is_word("infinity"@));
            assert("infinity"@[0] == 'i');
            assert("null"@[0] == 'n');
            assert("true"@[0] == 't');
            assert("false"@[0] == 'f');
        },
    }
}

/// The text form of an object with entries begins with its first key.
pub proof fn lemma_object_first(o: Seq<(Seq<char>, JsonValue)>, m: int, t: Seq<Seq<char>>)
    requires
        1 <= m <= o.len(),
        t.len() == floats_in(object_pieces(o, m)).len(),
    ensures
        texts_of(object_pieces(o, m), t).len() >= 1,
        texts_of(object_pieces(o, m), t)[0] == quoted(o[0].0),
    decreases m,
{
    if m == 1 {
        lemma_floats_in_entry(o[0].0, o[0].1);
        lemma_entry(o[0].0, o[0].1, t);
    } else {
        lemma_object_step(o, m, t);
        let k = floats_in(object_pieces(o, m - 1)).len() as int;
        lemma_object_first(o, m - 1, t.take(k));
    }
}

/// The parser reads the tokens of the first `m` elements of an array as
/// those elements, and goes on behind them.
pub proof fn lemma_elements_parse(
    a: Seq<JsonValue>,
    m: int,
    t: Seq<Seq<char>>,
    tokens: Seq<(Token, Seq<char>)>,
    q: int,
    floats: Seq<Binary64>,
    f: int,
)
    requires
        1 <= m <= a.len(),
        forall|i: int| 0 <= i < a.len() ==> plain(#[trigger] a[i]),
        float_texts(t),
        t.len() == floats_in(array_pieces(a, m)).len(),
        tokens_at(tokens, q, texts_of(array_pieces(a, m), t)),
        floats_at(floats, f, floats_in(array_pieces(a, m))),
    ensures
        parse_elements(tokens, q, floats, f, Seq::empty()) == after_element(
            tokens,
            q + texts_of(array_pieces(a, m), t).len(),
            floats,
            f + floats_in(array_pieces(a, m)).len(),
            a.take(m),
        ),
    decreases a, m,
{
    lemma_literals();
    let none = Seq::<JsonValue>::empty();
    if m == 1 {
        lemma_value_parse(a[0], t, tokens, q, floats, f);
        lemma_value_lex(a[0], t);
        assert(none.push(a[0]) =~= a.take(1));
    } else {
        lemma_array_step(a, m, t);
        let k = floats_in(array_pieces(a, m - 1)).len() as int;
        let x = texts_of(array_pieces(a, m - 1), t.take(k));
        let y = texts_of(pieces(a[m - 1]), t.skip(k));
        lemma_float_texts_split(t, k);
        lemma_tokens_at_add(tokens, q, x + seq![", "@], y);
        lemma_tokens_at_add(tokens, q, x, seq![", "@]);
        lemma_floats_at_add(floats, f, floats_in(array_pieces(a, m - 1)), floats_of(a[m - 1]));
        lemma_elements_parse(a, m - 1, t.take(k), tokens, q, floats, f);
        let r1 = q + x.len();
        assert(tokens[r1 + 0] == piece_token(seq![", "@][0]));
        assert(is_punct_text(", "@));
        assert(seq![','][0] == ',' && seq![']'][0] == ']');
        lemma_value_parse(a[m - 1], t.skip(k), tokens, r1 + 1, floats, f + k);
        lemma_value_lex(a[m - 1], t.skip(k));
        assert(a.take(m - 1).push(a[m - 1]) =~= a.take(m));
    }
}

/// The parser reads the tokens of one entry of an object as that entry,
/// and goes on behind it.
pub proof fn lemma_entry_parse(
    o: Seq<(Seq<char>, JsonValue)>,
    i: int,
    t: Seq<Seq<char>>,
    tokens: Seq<(Token, Seq<char>)>,
    q: int,
    floats: Seq<Binary64>,
    f: int,
)
    requires
        0 <= i < o.len(),
        object_keys_ascend(o),
        forall|j: int| 0 <= j < o.len() ==> no_backslash((#[trigger] o[j]).0) && plain(o[j].1),
        float_texts(t),
        t.len() == floats_of(o[i].1).len(),
        tokens_at(tokens, q, texts_of(entry_pieces(o[i].0, o[i].1), t)),
        floats_at(floats, f, floats_of(o[i].1)),
    ensures
        parse_entries(tokens, q, floats, f, o.take(i)) == after_entry(
            tokens,
            q + texts_of(entry_pieces(o[i].0, o[i].1), t).len(),
            floats,
            f + floats_of(o[i].1).len(),
            o.take(i + 1),
        ),
    decreases o, 0int,
{
    lemma_literals();
    let key = o[i].0;
    let value = o[i].1;
    assert(no_backslash(o[i].0) && plain(o[i].1));
    lemma_entry(key, value, t);
    let head = seq![quoted(key), ": "@];
    let y = texts_of(pieces(value), t);
    lemma_tokens_at_add(tokens, q, head, y);
    assert(tokens[q + 0] == piece_token(head[0]));
    assert(tokens[q + 1] == piece_token(head[1]));
    lemma_quoted_round_trip(key);
    lemma_piece_tokens(quoted(key));
    assert(is_punct_text(": "@));
    assert(seq![':'][0] == ':');
    lemma_value_parse(value, t, tokens, q + 2, floats, f);
    lemma_value_lex(value, t);
    lemma_put_next(o, i);
}

/// The parser reads the tokens of the first `m` entries of an object as
/// those entries, and goes on behind them.
pub proof fn lemma_entries_parse(
    o: Seq<(Seq<char>, JsonValue)>,
    m: int,
    t: Seq<Seq<char>>,
    tokens: Seq<(Token, Seq<char>)>,
    q: int,
    floats: Seq<Binary64>,
    f: int,
)
    requires
        1 <= m <= o.len(),
        object_keys_ascend(o),
        forall|j: int| 0 <= j < o.len() ==> no_backslash((#[trigger] o[j]).0) && plain(o[j].1),
        float_texts(t),
        t.len() == floats_in(object_pieces(o, m)).len(),
        tokens_at(tokens, q, texts_of(object_pieces(o, m), t)),
        floats_at(floats, f, floats_in(object_pieces(o, m))),
    ensures
        parse_entries(tokens, q, floats, f, Seq::empty()) == after_entry(
            tokens,
            q + texts_of(object_pieces(o, m), t).len(),
            floats,
            f + floats_in(object_pieces(o, m)).len(),
            o.take(m),
        ),
    decreases o, m,
{
    lemma_literals();
    if m == 1 {
        lemma_floats_in_entry(o[0].0, o[0].1);
        lemma_entry_parse(o, 0, t, tokens, q, floats, f);
        assert(o.take(0) =~= Seq::<(Seq<char>, JsonValue)>::empty());
    } else {
        lemma_object_step(o, m, t);
        let k = floats_in(object_pieces(o, m - 1)).len() as int;
        let x = texts_of(object_pieces(o, m - 1), t.take(k));
        let y = texts_of(entry_pieces(o[m - 1].0, o[m - 1].1), t.skip(k));
        lemma_float_texts_split(t, k);
        lemma_floats_in_entry(o[m - 1].0, o[m - 1].1);
        lemma_tokens_at_add(tokens, q, x + seq![", "@], y);
        lemma_tokens_at_add(tokens, q, x, seq![", "@]);
        lemma_floats_at_add(
            floats,
            f,
            floats_in(object_pieces(o, m - 1)),
            floats_of(o[m - 1].1),
        );
        lemma_entries_parse(o, m - 1, t.take(k), tokens, q, floats, f);
        let r1 = q + x.len();
        assert(tokens[r1 + 0] == piece_token(seq![", "@][0]));
        assert(is_punct_text(", "@));
        assert(seq![','][0] == ',' && seq!['}'][0] == '}');
        lemma_entry_parse(o, m - 1, t.skip(k), tokens, r1 + 1, floats, f + k);
    }
}

/// The text form of a value is cut into the tokens of its pieces.
pub proof fn lemma_text_tokens(v: JsonValue, t: Seq<Seq<char>>)
    requires
        plain(v),
        float_texts(t),
        t.len() == floats_of(v).len(),
    ensures
        tokens_from(json_text(v, t), 0) == tokens_of_texts(texts_of(pieces(v), t)),
{
    let w = json_text(v, t);
    let ts = texts_of(pieces(v), t);
    lemma_assembled_flat(pieces(v), t);
    lemma_value_lex(v, t);
    assert(w.subrange(0, 0 + w.len() as int) =~= w);
    lemma_lex(w, 0, ts);
    lemma_scan_bounds(w, w.len() as int);
    assert(tokens_from(w, w.len() as int) =~= Seq::<(Token, Seq<char>)>::empty());
    assert(tokens_of_texts(ts) + Seq::<(Token, Seq<char>)>::empty() =~= tokens_of_texts(ts));
}

/// The text form of a value parses back to the value.
///
/// The value must be one whose text form tells all of it, and the text
/// supplied for each of its binary64 numbers must be a number with a
/// fraction or an exponent. The parser is given the numbers of the value.
pub proof fn lemma_json_round_trip(v: JsonValue, t: Seq<Seq<char>>)
    requires
        plain(v),
        float_texts(t),
        t.len() == floats_of(v).len(),
    ensures
        parse_value(tokens_from(json_text(v, t), 0), 0, floats_of(v), 0) == done(
            v,
            tokens_from(json_text(v, t), 0).len() as int,
            floats_of(v).len() as int,
        ),
{
    let ts = texts_of(pieces(v), t);
    let tokens = tokens_of_texts(ts);
    lemma_text_tokens(v, t);
    lemma_value_parse(v, t, tokens, 0, floats_of(v), 0);
}

} // verus!

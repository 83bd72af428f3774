//! The tokens of the text form of values.
//!
//! A text is cut into tokens from left to right, each token as long as it
//! can be. White space stands between tokens and belongs to none.

use vstd::prelude::*;

verus! {

/// The kind of a token.
#[derive(Debug, Clone, Copy, PartialEq, Eq, Structural)]
pub enum Token {
    /// Digits, with a minus sign in front or without.
    Int,
    /// A number with a fraction or an exponent.
    Float,
    /// A double quote and all that follows it up to the closing quote.
    String,
    /// A single character that belongs to no other token.
    Punctuation,
    /// Letters.
    Identifier,
}

/// Whether `c` is a decimal digit.
pub open spec fn is_digit(c: char) -> bool {
    '0' <= c <= '9'
}

/// Whether `c` is a letter of the Latin alphabet.
pub open spec fn is_letter(c: char) -> bool {
    'a' <= c <= 'z' || 'A' <= c <= 'Z'
}

/// Whether `c` is white space, as Unicode defines it.
pub open spec fn is_space(c: char) -> bool {
    ||| c == ' '
    ||| '\t' <= c <= '\r'
    ||| c == '\u{85}'
    ||| c == '\u{A0}'
    ||| c == '\u{1680}'
    ||| '\u{2000}' <= c <= '\u{200A}'
    ||| c == '\u{2028}'
    ||| c == '\u{2029}'
    ||| c == '\u{202F}'
    ||| c == '\u{205F}'
    ||| c == '\u{3000}'
}

/// Whether `c` opens an exponent.
pub open spec fn is_exponent_mark(c: char) -> bool {
    c == 'e' || c == 'E'
}

/// The first place at or after `i` that holds no digit.
pub open spec fn digits_end(s: Seq<char>, i: int) -> int
    decreases s.len() - i,
{
    if 0 <= i < s.len() && is_digit(s[i]) {
        digits_end(s, i + 1)
    } else {
        i
    }
}

/// The first place at or after `i` that holds no letter.
pub open spec fn letters_end(s: Seq<char>, i: int) -> int
    decreases s.len() - i,
{
    if 0 <= i < s.len() && is_letter(s[i]) {
        letters_end(s, i + 1)
    } else {
        i
    }
}

/// The first place at or after `i` that holds no white space.
pub open spec fn spaces_end(s: Seq<char>, i: int) -> int
    decreases s.len() - i,
{
    if 0 <= i < s.len() && is_space(s[i]) {
        spaces_end(s, i + 1)
    } else {
        i
    }
}

/// The place behind the string whose body begins at `i`: behind its
/// closing quote, or the end of the text where none closes it. A backslash
/// takes the character behind it into the string.
pub open spec fn string_end(s: Seq<char>, i: int) -> int
    decreases s.len() - i,
{
    if i < 0 || i >= s.len() {
        s.len() as int
    } else if s[i] == '"' {
        i + 1
    } else if s[i] == '\\' {
        if i + 1 >= s.len() {
            s.len() as int
        } else {
            string_end(s, i + 2)
        }
    } else {
        string_end(s, i + 1)
    }
}

/// Whether the string whose body begins at `i` is closed by a quote.
pub open spec fn string_closed(s: Seq<char>, i: int) -> bool
    decreases s.len() - i,
{
    if i < 0 || i >= s.len() {
        false
    } else if s[i] == '"' {
        true
    } else if s[i] == '\\' {
        if i + 1 >= s.len() {
            false
        } else {
            string_closed(s, i + 2)
        }
    } else {
        string_closed(s, i + 1)
    }
}

/// The place behind the exponent that follows an exponent mark at `i - 1`:
/// a sign or a digit, and the digits behind it.
pub open spec fn exponent_end(s: Seq<char>, i: int) -> int {
    if 0 <= i < s.len() && (s[i] == '-' || s[i] == '+' || is_digit(s[i])) {
        digits_end(s, i + 1)
    } else {
        i
    }
}

/// The kind of the number whose digits begin at `i`, and the place behind
/// it: digits, then a point and digits, then an exponent, each part only if
/// it is there.
pub open spec fn number_at(s: Seq<char>, i: int) -> (Token, int) {
    let k1 = digits_end(s, i);
    if k1 < s.len() && s[k1] == '.' {
        let k2 = digits_end(s, k1 + 1);
        if k2 < s.len() && is_exponent_mark(s[k2]) {
            (Token::Float, exponent_end(s, k2 + 1))
        } else {
            (Token::Float, k2)
        }
    } else if k1 < s.len() && is_exponent_mark(s[k1]) {
        (Token::Float, exponent_end(s, k1 + 1))
    } else {
        (Token::Int, k1)
    }
}

/// The kind of the token that begins at `i`, and the place behind it.
pub open spec fn token_at(s: Seq<char>, i: int) -> (Token, int) {
    let c = s[i];
    if c == '"' {
        (Token::String, string_end(s, i + 1))
    } else if is_digit(c) {
        number_at(s, i)
    } else if c == '-' && i + 1 < s.len() && is_digit(s[i + 1]) {
        number_at(s, i + 1)
    } else if is_letter(c) {
        (Token::Identifier, letters_end(s, i + 1))
    } else {
        (Token::Punctuation, i + 1)
    }
}

/// A scan never goes back, nor past the end of the text.
pub proof fn lemma_scan_bounds(s: Seq<char>, i: int)
    requires
        0 <= i <= s.len(),
    ensures
        i <= digits_end(s, i) <= s.len(),
        i <= letters_end(s, i) <= s.len(),
        i <= spaces_end(s, i) <= s.len(),
        i <= string_end(s, i) <= s.len(),
        spaces_end(s, i) < s.len() ==> !is_space(s[spaces_end(s, i)]),
    decreases s.len() - i,
{
    if i < s.len() {
        lemma_scan_bounds(s, i + 1);
        if i + 2 <= s.len() {
            lemma_scan_bounds(s, i + 2);
        }
    }
}

/// A token holds at least one character and ends within the text.
pub proof fn lemma_token_bounds(s: Seq<char>, i: int)
    requires
        0 <= i < s.len(),
    ensures
        i < token_at(s, i).1 <= s.len(),
{
    lemma_scan_bounds(s, i + 1);
    lemma_scan_bounds(s, i);
    let k1 = digits_end(s, i);
    if k1 < s.len() {
        lemma_scan_bounds(s, k1 + 1);
        let k2 = digits_end(s, k1 + 1);
        if k2 < s.len() {
            lemma_scan_bounds(s, k2 + 1);
            if k2 + 2 <= s.len() {
                lemma_scan_bounds(s, k2 + 2);
            }
        }
        if k1 + 2 <= s.len() {
            lemma_scan_bounds(s, k1 + 2);
        }
    }
    if i + 1 < s.len() {
        let j1 = digits_end(s, i + 1);
        if j1 < s.len() {
            lemma_scan_bounds(s, j1 + 1);
            let j2 = digits_end(s, j1 + 1);
            if j2 < s.len() {
                lemma_scan_bounds(s, j2 + 1);
                if j2 + 2 <= s.len() {
                    lemma_scan_bounds(s, j2 + 2);
                }
            }
            if j1 + 2 <= s.len() {
                lemma_scan_bounds(s, j1 + 2);
            }
        }
    }
}

/// The tokens of `s` from place `i` on: their kinds and their texts.
pub open spec fn tokens_from(s: Seq<char>, i: int) -> Seq<(Token, Seq<char>)>
    decreases s.len() - i,
{
    let start = spaces_end(s, i);
    if i < 0 || start < i || start >= s.len() {
        Seq::empty()
    } else {
        let (kind, end) = token_at(s, start);
        if start < end <= s.len() {
            seq![(kind, s.subrange(start, end))] + tokens_from(s, end)
        } else {
            Seq::empty()
        }
    }
}

/// The kinds and texts of a list of tokens.
pub open spec fn tokens_model(tokens: Seq<(Token, String)>) -> Seq<(Token, Seq<char>)> {
    tokens.map_values(|t: (Token, String)| (t.0, t.1@))
}

/// Whether `c` is a decimal digit.
pub fn digit(c: char) -> (r: bool)
    ensures
        r == is_digit(c),
{
    '0' <= c && c <= '9'
}

/// Whether `c` is a letter of the Latin alphabet.
pub fn letter(c: char) -> (r: bool)
    ensures
        r == is_letter(c),
{
    ('a' <= c && c <= 'z') || ('A' <= c && c <= 'Z')
}

/// Whether `c` is white space.
pub fn space(c: char) -> (r: bool)
    ensures
        r == is_space(c),
{
    c == ' ' || ('\t' <= c && c <= '\r') || c == '\u{85}' || c == '\u{A0}' || c == '\u{1680}' || (
    '\u{2000}' <= c && c <= '\u{200A}') || c == '\u{2028}' || c == '\u{2029}' || c == '\u{202F}'
        || c == '\u{205F}' || c == '\u{3000}'
}

/// The characters of a text.
pub fn chars_of(s: &str) -> (v: Vec<char>)
    ensures
        v@ == s@,
{
    broadcast use vstd::string::group_string_axioms;

    let mut v: Vec<char> = Vec::new();
    for c in it: s.chars()
        invariant
            it.seq() == s@,
            v@ == it.seq().take(it.index()),
    {
        v.push(c);
        assert(it.seq().take(it.index() + 1) =~= it.seq().take(it.index()).push(c));
    }
    assert(s@.take(s@.len() as int) =~= s@);
    v
}

/// The text made of the characters of `v` from `from` up to `to`.
pub fn text_of(v: &Vec<char>, from: usize, to: usize) -> (s: String)
    requires
        from <= to <= v@.len(),
    ensures
        s@ == v@.subrange(from as int, to as int),
{
    let mut s = String::new();
    let mut i: usize = from;
    while i < to
        invariant
            from <= i <= to <= v@.len(),
            s@ == v@.subrange(from as int, i as int),
        decreases to - i,
    {
        s.push(v[i]);
        assert(v@.subrange(from as int, i + 1) =~= v@.subrange(from as int, i as int).push(v@[i as int]));
        i = i + 1;
    }
    s
}

/// The first place at or after `i` that holds no digit.
pub fn scan_digits(v: &Vec<char>, i: usize) -> (end: usize)
    requires
        i <= v@.len(),
    ensures
        end == digits_end(v@, i as int),
        i <= end <= v@.len(),
{
    let mut k: usize = i;
    while k < v.len() && digit(v[k])
        invariant
            i <= k <= v@.len(),
            digits_end(v@, i as int) == digits_end(v@, k as int),
        decreases v@.len() - k,
    {
        k = k + 1;
    }
    k
}

/// The first place at or after `i` that holds no letter.
pub fn scan_letters(v: &Vec<char>, i: usize) -> (end: usize)
    requires
        i <= v@.len(),
    ensures
        end == letters_end(v@, i as int),
        i <= end <= v@.len(),
{
    let mut k: usize = i;
    while k < v.len() && letter(v[k])
        invariant
            i <= k <= v@.len(),
            letters_end(v@, i as int) == letters_end(v@, k as int),
        decreases v@.len() - k,
    {
        k = k + 1;
    }
    k
}

/// The first place at or after `i` that holds no white space.
pub fn scan_spaces(v: &Vec<char>, i: usize) -> (end: usize)
    requires
        i <= v@.len(),
    ensures
        end == spaces_end(v@, i as int),
        i <= end <= v@.len(),
{
    let mut k: usize = i;
    while k < v.len() && space(v[k])
        invariant
            i <= k <= v@.len(),
            spaces_end(v@, i as int) == spaces_end(v@, k as int),
        decreases v@.len() - k,
    {
        k = k + 1;
    }
    k
}

/// The place behind the string whose body begins at `i`, and whether a
/// quote closes it.
pub fn scan_string(v: &Vec<char>, i: usize) -> (r: (usize, bool))
    requires
        i <= v@.len(),
    ensures
        r.0 == string_end(v@, i as int),
        r.1 == string_closed(v@, i as int),
        i <= r.0 <= v@.len(),
{
    let mut k: usize = i;
    while k < v.len()
        invariant
            i <= k <= v@.len(),
            string_end(v@, i as int) == string_end(v@, k as int),
            string_closed(v@, i as int) == string_closed(v@, k as int),
        decreases v@.len() - k,
    {
        if v[k] == '"' {
            return (k + 1, true);
        } else if v[k] == '\\' {
            if k + 1 >= v.len() {
                return (v.len(), false);
            }
            k = k + 2;
        } else {
            k = k + 1;
        }
    }
    (k, false)
}

/// The place behind the exponent that follows an exponent mark.
fn scan_exponent(v: &Vec<char>, i: usize) -> (end: usize)
    requires
        i <= v@.len(),
    ensures
        end == exponent_end(v@, i as int),
        i <= end <= v@.len(),
{
    if i < v.len() && (v[i] == '-' || v[i] == '+' || digit(v[i])) {
        scan_digits(v, i + 1)
    } else {
        i
    }
}

/// The kind of the number whose digits begin at `i`, and the place behind
/// it.
fn scan_number(v: &Vec<char>, i: usize) -> (r: (Token, usize))
    requires
        i <= v@.len(),
    ensures
        r.0 == number_at(v@, i as int).0,
        r.1 == number_at(v@, i as int).1,
        i <= r.1 <= v@.len(),
{
    let k1 = scan_digits(v, i);
    if k1 < v.len() && v[k1] == '.' {
        let k2 = scan_digits(v, k1 + 1);
        if k2 < v.len() && (v[k2] == 'e' || v[k2] == 'E') {
            (Token::Float, scan_exponent(v, k2 + 1))
        } else {
            (Token::Float, k2)
        }
    } else if k1 < v.len() && (v[k1] == 'e' || v[k1] == 'E') {
        (Token::Float, scan_exponent(v, k1 + 1))
    } else {
        (Token::Int, k1)
    }
}

/// The kind of the token that begins at `i`, and the place behind it.
fn scan_token(v: &Vec<char>, i: usize) -> (r: (Token, usize))
    requires
        i < v.len(),
    ensures
        r.0 == token_at(v@, i as int).0,
        r.1 == token_at(v@, i as int).1,
        i < r.1 <= v@.len(),
{
    proof {
        lemma_token_bounds(v@, i as int);
    }
    let c = v[i];
    if c == '"' {
        (Token::String, scan_string(v, i + 1).0)
    } else if digit(c) {
        scan_number(v, i)
    } else if c == '-' && i + 1 < v.len() && digit(v[i + 1]) {
        scan_number(v, i + 1)
    } else if letter(c) {
        (Token::Identifier, scan_letters(v, i + 1))
    } else {
        (Token::Punctuation, i + 1)
    }
}

/// Cuts a text into its tokens.
pub fn json_tokens(s: &str) -> (tokens: Vec<(Token, String)>)
    ensures
        tokens_model(tokens@) == tokens_from(s@, 0),
{
    let v = chars_of(s);
    let mut tokens: Vec<(Token, String)> = Vec::new();
    let mut i: usize = 0;
    loop
        invariant
            v@ == s@,
            i <= v@.len(),
            tokens_model(tokens@) + tokens_from(v@, i as int) == tokens_from(v@, 0),
        decreases v@.len() - i,
    {
        let start = scan_spaces(&v, i);
        if start >= v.len() {
            assert(tokens_model(tokens@) + Seq::<(Token, Seq<char>)>::empty() =~= tokens_model(
                tokens@,
            ));
            return tokens;
        }
        let (kind, end) = scan_token(&v, start);
        let text = text_of(&v, start, end);
        proof {
            let rest = tokens_from(v@, end as int);
            assert(tokens_model(tokens@.push((kind, text))) =~= tokens_model(tokens@).push(
                (kind, text@),
            ));
            assert(tokens_model(tokens@).push((kind, text@)) + rest =~= tokens_model(tokens@) + (
            seq![(kind, text@)] + rest));
        }
        tokens.push((kind, text));
        i = end;
    }
}

/// The text without its backslashes.
pub open spec fn without_backslashes(s: Seq<char>) -> Seq<char>
    decreases s.len(),
{
    if s.len() == 0 {
        Seq::empty()
    } else if s.last() == '\\' {
        without_backslashes(s.drop_last())
    } else {
        without_backslashes(s.drop_last()).push(s.last())
    }
}

/// What a string token stands for: the text between its first and its last
/// character, without the backslashes.
pub open spec fn unescaped(s: Seq<char>) -> Seq<char> {
    without_backslashes(s.subrange(1, s.len() - 1))
}

/// The string that a string token stands for: its first and its last
/// character are taken off, and every backslash is left out.
pub fn unescape_str(s: &str) -> (r: String)
    requires
        s@.len() >= 2,
    ensures
        r@ == unescaped(s@),
{
    let v = chars_of(s);
    let n = v.len() - 1;
    let mut su = String::new();
    let mut i: usize = 1;
    let ghost body = v@.subrange(1, n as int);
    while i < n
        invariant
            1 <= i <= n,
            n == v@.len() - 1,
            body == v@.subrange(1, n as int),
            su@ == without_backslashes(body.take(i - 1)),
        decreases n - i,
    {
        let ch = v[i];
        proof {
            assert(body.take(i as int).drop_last() =~= body.take(i - 1));
            assert(body.take(i as int).last() == ch);
        }
        if ch != '\\' {
            su.push(ch);
        }
        i = i + 1;
    }
    assert(body.take(n - 1) =~= body);
    su
}

} // verus!

//! Text helpers: hexadecimal digits and the quoted rendering of byte
//! strings used in diagnostics.

use vstd::prelude::*;
use vstd::string::StrSliceExecFns;

verus! {

/// `String::push` of the standard library appends one character to the
/// string and changes nothing else.
pub assume_specification[ std::string::String::push ](s: &mut std::string::String, ch: char)
    ensures
        final(s)@ == old(s)@.push(ch),
;

/// The upper-case hexadecimal digit for a value below sixteen.
pub open spec fn hex_digit(n: u8) -> char {
    if n < 10 {
        (0x30 + n) as char
    } else {
        (0x41 + (n - 10)) as char
    }
}

/// The two upper-case hexadecimal digits of a byte, high nibble first.
pub open spec fn hex_pair(b: u8) -> Seq<char> {
    seq![hex_digit(b / 16), hex_digit(b % 16)]
}

/// The bytes of `s` in upper-case hexadecimal, two digits each.
pub open spec fn hex_text(s: Seq<u8>) -> Seq<char>
    decreases s.len(),
{
    if s.len() == 0 {
        Seq::empty()
    } else {
        hex_text(s.drop_last()) + hex_pair(s.last())
    }
}

/// Whether a byte is printable ASCII, space included.
pub open spec fn is_printable(b: u8) -> bool {
    32 <= b <= 126
}

/// How one byte is rendered: itself when printable, else a backslash and
/// its two hexadecimal digits.
pub open spec fn repr_byte(b: u8) -> Seq<char> {
    if is_printable(b) {
        seq![b as char]
    } else {
        seq!['\\'] + hex_pair(b)
    }
}

/// The rendering of each byte of `s`, in order, without the quotes.
pub open spec fn repr_body(s: Seq<u8>) -> Seq<char>
    decreases s.len(),
{
    if s.len() == 0 {
        Seq::empty()
    } else {
        repr_body(s.drop_last()) + repr_byte(s.last())
    }
}

/// The quoted rendering of a byte string.
pub open spec fn repr_text(s: Seq<u8>) -> Seq<char> {
    seq!['"'] + repr_body(s) + seq!['"']
}

/// The hexadecimal digit for a value below sixteen.
pub fn hex_char(n: u8) -> (c: char)
    requires
        n < 16,
    ensures
        c == hex_digit(n),
{
    if n < 10 {
        (0x30 + n) as char
    } else {
        (0x41 + (n - 10)) as char
    }
}

/// Appends the two hexadecimal digits of `b` to `out`.
pub fn push_hex_pair(out: &mut String, b: u8)
    ensures
        final(out)@ == old(out)@ + hex_pair(b),
{
    out.push(hex_char(b / 16));
    out.push(hex_char(b % 16));
    assert(out@ =~= old(out)@ + hex_pair(b));
}

/// Renders a byte string between double quotes: printable ASCII as it is,
/// every other byte as a backslash and two upper-case hexadecimal digits.
pub fn repr(v: &[u8]) -> (s: String)
    ensures
        s@ == repr_text(v@),
{
    let mut s = String::new();
    s.push('"');
    let mut i: usize = 0;
    while i < v.len()
        invariant
            i <= v.len(),
            s@ == seq!['"'] + repr_body(v@.take(i as int)),
        decreases v.len() - i,
    {
        let c = v[i];
        let ghost before = s@;
        if c < 32 || c > 126 {
            s.push('\\');
            push_hex_pair(&mut s, c);
        } else {
            s.push(c as char);
        }
        proof {
            assert(v@.take(i + 1).drop_last() =~= v@.take(i as int));
            assert(s@ =~= before + repr_byte(c));
        }
        i = i + 1;
    }
    s.push('"');
    proof {
        assert(v@.take(v.len() as int) =~= v@);
    }
    s
}

/// Why a text is not the hexadecimal form of a byte string.
#[derive(Copy, Clone, Debug, PartialEq, Eq, Structural)]
pub enum FromHexError {
    /// The text holds a character that is no hexadecimal digit: the
    /// character, and its position.
    InvalidHexCharacter(char, usize),
    /// The text has an odd number of digits.
    InvalidHexLength,
}

/// The value of a hexadecimal digit, upper or lower case, or none.
pub open spec fn hex_value(c: char) -> Option<u8> {
    if '0' <= c <= '9' {
        Some((c as u32 - 0x30) as u8)
    } else if 'A' <= c <= 'F' {
        Some((c as u32 - 0x41 + 10) as u8)
    } else if 'a' <= c <= 'f' {
        Some((c as u32 - 0x61 + 10) as u8)
    } else {
        None
    }
}

/// Whether `s` has a digit at `i` and at every place before it.
pub open spec fn hex_digits_upto(s: Seq<char>, i: int) -> bool {
    forall|j: int| 0 <= j < i ==> hex_value(#[trigger] s[j]) is Some
}

/// The bytes that the hexadecimal digits of `s` stand for, two digits a
/// byte, high nibble first.
pub open spec fn hex_bytes(s: Seq<char>) -> Seq<u8> {
    Seq::new(
        (s.len() / 2) as nat,
        |i: int| (16 * hex_value(s[2 * i])->0 + hex_value(s[2 * i + 1])->0) as u8,
    )
}

/// What parsing `s` as hexadecimal gives: the first character that is no
/// digit is reported with its position; a text of digits must have an even
/// length.
pub open spec fn hex_parse(s: Seq<char>) -> Result<Seq<u8>, FromHexError> {
    if exists|i: int| 0 <= i < s.len() && hex_value(s[i]) is None {
        let i = choose|i: int|
            0 <= i < s.len() && hex_value(s[i]) is None && hex_digits_upto(s, i);
        Err(FromHexError::InvalidHexCharacter(s[i], i as usize))
    } else if s.len() % 2 != 0 {
        Err(FromHexError::InvalidHexLength)
    } else {
        Ok(hex_bytes(s))
    }
}

/// The hexadecimal form of a byte string has two digits for each byte.
pub proof fn lemma_hex_text(s: Seq<u8>)
    ensures
        hex_text(s).len() == 2 * s.len(),
        forall|i: int|
            0 <= i < s.len() ==> hex_text(s)[2 * i] == hex_digit(#[trigger] s[i] / 16) && hex_text(
                s,
            )[2 * i + 1] == hex_digit(s[i] % 16),
    decreases s.len(),
{
    if s.len() > 0 {
        let head = s.drop_last();
        lemma_hex_text(head);
        let t = hex_text(s);
        assert(t =~= hex_text(head) + hex_pair(s.last()));
        assert forall|i: int| 0 <= i < s.len() implies t[2 * i] == hex_digit(#[trigger] s[i] / 16)
            && t[2 * i + 1] == hex_digit(s[i] % 16) by {
            if i < head.len() {
                assert(head[i] == s[i]);
                assert(t[2 * i] == hex_text(head)[2 * i]);
                assert(t[2 * i + 1] == hex_text(head)[2 * i + 1]);
            } else {
                assert(t[2 * i] == hex_pair(s.last())[0]);
                assert(t[2 * i + 1] == hex_pair(s.last())[1]);
            }
        }
    }
}

/// The value of the hexadecimal digit for a value below sixteen is that
/// value.
pub proof fn lemma_hex_digit_value(n: u8)
    requires
        n < 16,
    ensures
        hex_value(hex_digit(n)) == Some(n),
{
}

/// Parsing the hexadecimal form of a byte string gives the byte string
/// back.
pub proof fn lemma_hex_round_trip(s: Seq<u8>)
    ensures
        hex_parse(hex_text(s)) == Ok::<Seq<u8>, FromHexError>(s),
{
    let t = hex_text(s);
    lemma_hex_text(s);
    assert forall|i: int| 0 <= i < t.len() implies hex_value(t[i]) is Some by {
        let b = s[i / 2];
        lemma_hex_digit_value(b / 16);
        lemma_hex_digit_value(b % 16);
        if i % 2 == 0 {
            assert(t[2 * (i / 2)] == hex_digit(b / 16));
        } else {
            assert(t[2 * (i / 2) + 1] == hex_digit(b % 16));
        }
    }
    assert forall|i: int| 0 <= i < s.len() implies hex_bytes(t)[i] == s[i] by {
        lemma_hex_digit_value(s[i] / 16);
        lemma_hex_digit_value(s[i] % 16);
    }
    assert(hex_bytes(t) =~= s);
}

/// The value of a hexadecimal digit, upper or lower case, or none.
pub fn hex_digit_value(c: char) -> (v: Option<u8>)
    ensures
        v == hex_value(c),
        v matches Some(n) ==> n < 16,
{
    let u = c as u32;
    if '0' <= c && c <= '9' {
        Some((u - 0x30) as u8)
    } else if 'A' <= c && c <= 'F' {
        Some((u - 0x41 + 10) as u8)
    } else if 'a' <= c && c <= 'f' {
        Some((u - 0x61 + 10) as u8)
    } else {
        None
    }
}

/// Parses a text of hexadecimal digits, two a byte, into the bytes.
pub fn from_hex(s: &str) -> (r: Result<Vec<u8>, FromHexError>)
    ensures
        match r {
            Ok(bytes) => hex_parse(s@) == Ok::<Seq<u8>, FromHexError>(bytes@),
            Err(e) => hex_parse(s@) == Err::<Seq<u8>, FromHexError>(e),
        },
{
    broadcast use vstd::string::group_string_axioms;

    let mut b: Vec<u8> = Vec::new();
    let mut pending: Option<u8> = None;
    let mut idx: usize = 0;
    let count = s.unicode_len();
    for c in it: s.chars()
        invariant
            it.seq() == s@,
            s@.len() == count,
            idx == it.index(),
            hex_digits_upto(s@, idx as int),
            b@ == hex_bytes(s@.take(idx as int)),
            match pending {
                Some(high) => idx % 2 == 1 && hex_value(s@[idx - 1]) == Some(high),
                None => idx % 2 == 0,
            },
    {
        let ghost before = s@.take(idx as int);
        let ghost after = s@.take(idx + 1);
        match hex_digit_value(c) {
            None => {
                proof {
                    let i = choose|i: int|
                        0 <= i < s@.len() && hex_value(s@[i]) is None && hex_digits_upto(s@, i);
                    assert(i == idx) by {
                        if i < idx {
                            assert(hex_value(s@[i]) is Some);
                        } else if idx < i {
                            assert(hex_value(s@[idx as int]) is Some);
                        }
                    }
                }
                return Err(FromHexError::InvalidHexCharacter(c, idx));
            },
            Some(low) => {
                match pending {
                    None => {
                        pending = Some(low);
                        proof {
                            assert(hex_bytes(after) =~= hex_bytes(before));
                        }
                    },
                    Some(high) => {
                        b.push(16 * high + low);
                        pending = None;
                        proof {
                            assert(after[idx - 1] == s@[idx - 1]);
                            assert(hex_bytes(after) =~= hex_bytes(before).push(
                                (16 * high + low) as u8,
                            ));
                        }
                    },
                }
            },
        }
        idx = idx + 1;
    }
    proof {
        assert(s@.take(idx as int) =~= s@);
        assert(!exists|i: int| 0 <= i < s@.len() && hex_value(s@[i]) is None);
    }
    match pending {
        None => Ok(b),
        Some(_) => Err(FromHexError::InvalidHexLength),
    }
}

} // verus!

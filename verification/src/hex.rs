//! Bytes written as pairs of hexadecimal digits.

use crate::scan::chars_of;
use vstd::prelude::*;

verus! {

/// Whether a character is a hexadecimal digit, in either case.
pub open spec fn hex_digit(c: char) -> bool {
    ('0' <= c && c <= '9') || ('a' <= c && c <= 'f') || ('A' <= c && c <= 'F')
}

/// What a hexadecimal digit stands for.
pub open spec fn hex_value(c: char) -> int {
    if c <= '9' {
        c as int - '0' as int
    } else if c <= 'F' {
        c as int - 'A' as int + 10
    } else {
        c as int - 'a' as int + 10
    }
}

/// The digit for a value below sixteen, in lower case.
pub open spec fn hex_char(value: int) -> char {
    if value < 10 {
        ('0' as int + value) as char
    } else {
        ('a' as int + (value - 10)) as char
    }
}

/// Whether a text is whole bytes in hexadecimal.
pub open spec fn all_hex(s: Seq<char>) -> bool {
    s.len() % 2 == 0 && forall|i: int| 0 <= i < s.len() ==> hex_digit(#[trigger] s[i])
}

/// The bytes that pairs of digits stand for.
pub open spec fn decoded(s: Seq<char>) -> Seq<u8> {
    Seq::new(s.len() / 2, |i: int| (16 * hex_value(s[2 * i]) + hex_value(s[2 * i + 1])) as u8)
}

/// Bytes as pairs of digits.
pub open spec fn encoded(bytes: Seq<u8>) -> Seq<char> {
    Seq::new(
        2 * bytes.len(),
        |i: int|
            hex_char(
                if i % 2 == 0 {
                    bytes[i / 2] as int / 16
                } else {
                    bytes[i / 2] as int % 16
                },
            ),
    )
}

fn digit_of(c: char) -> (value: Option<u8>)
    ensures
        value is Some <==> hex_digit(c),
        value matches Some(v) ==> v == hex_value(c) && v < 16,
{
    if '0' <= c && c <= '9' {
        Some((c as u32 - 48) as u8)
    } else if 'A' <= c && c <= 'F' {
        Some((c as u32 - 65 + 10) as u8)
    } else if 'a' <= c && c <= 'f' {
        Some((c as u32 - 97 + 10) as u8)
    } else {
        None
    }
}

/// The bytes a text stands for, if it is whole bytes in hexadecimal.
pub fn decode(text: &str) -> (bytes: Option<Vec<u8>>)
    ensures
        match bytes {
            Some(b) => all_hex(text@) && b@ == decoded(text@),
            None => !all_hex(text@),
        },
{
    let s = chars_of(text);
    if s.len() % 2 != 0 {
        return None;
    }
    let mut bytes: Vec<u8> = Vec::new();
    let mut at: usize = 0;
    let size: usize = s.len();
    while at < size
        invariant
            s@ == text@,
            size == s@.len(),
            size % 2 == 0,
            at <= size,
            at % 2 == 0,
            bytes@.len() == at / 2,
            forall|i: int| 0 <= i < at ==> hex_digit(#[trigger] s@[i]),
            forall|i: int| 0 <= i < at / 2 ==> bytes@[i] == decoded(s@)[i],
        decreases size - at,
    {
        match (digit_of(s[at]), digit_of(s[at + 1])) {
            (Some(high), Some(low)) => {
                bytes.push(16 * high + low);
                proof {
                    assert(2 * (at as int / 2) == at);
                }
            },
            _ => {
                return None;
            },
        }
        at = at + 2;
    }
    proof {
        assert(bytes@ =~= decoded(s@));
    }
    Some(bytes)
}

fn char_of(value: u8) -> (c: char)
    requires
        value < 16,
    ensures
        c == hex_char(value as int),
{
    if value < 10 {
        (48 + value) as char
    } else {
        (97 + (value - 10)) as char
    }
}

/// Bytes in lower-case hexadecimal.
pub fn encode(bytes: &[u8]) -> (text: String)
    ensures
        text@ == encoded(bytes@),
{
    let mut text = String::new();
    let mut at: usize = 0;
    while at < bytes.len()
        invariant
            at <= bytes@.len(),
            text@.len() == 2 * at,
            forall|i: int| 0 <= i < 2 * at ==> text@[i] == encoded(bytes@)[i],
        decreases bytes@.len() - at,
    {
        let byte: u8 = bytes[at];
        text.push(char_of(byte / 16));
        text.push(char_of(byte % 16));
        proof {
            assert((2 * at as int) / 2 == at && (2 * at as int) % 2 == 0);
            assert((2 * at as int + 1) / 2 == at && (2 * at as int + 1) % 2 == 1);
        }
        at = at + 1;
    }
    proof {
        assert(text@ =~= encoded(bytes@));
    }
    text
}

/// What was written in hexadecimal is read back.
pub proof fn what_is_encoded_is_decoded(bytes: Seq<u8>)
    ensures
        all_hex(encoded(bytes)),
        decoded(encoded(bytes)) == bytes,
{
    let s = encoded(bytes);
    assert forall|i: int| 0 <= i < s.len() implies hex_digit(#[trigger] s[i]) by {
        let byte = bytes[i / 2] as int;
        assert(0 <= byte / 16 < 16 && 0 <= byte % 16 < 16);
    }
    assert forall|i: int| 0 <= i < bytes.len() implies decoded(s)[i] == bytes[i] by {
        let byte = bytes[i] as int;
        assert((2 * i) / 2 == i && (2 * i) % 2 == 0);
        assert((2 * i + 1) / 2 == i && (2 * i + 1) % 2 == 1);
        assert(hex_value(hex_char(byte / 16)) == byte / 16);
        assert(hex_value(hex_char(byte % 16)) == byte % 16);
    }
    assert(decoded(s) =~= bytes);
}

/// Digits stand for what they stand for, in either case, and are written in lower case.
pub proof fn what_a_digit_stands_for(c: char, value: int)
    requires
        0 <= value < 16,
    ensures
        hex_digit(hex_char(value)),
        hex_value(hex_char(value)) == value,
        value < 10 ==> hex_char(value) as int == 48 + value,
        value >= 10 ==> hex_char(value) as int == 97 + value - 10,
        'A' <= c && c <= 'F' ==> hex_digit(c) && hex_value(c) == hex_value((c as int + 32) as char),
        hex_digit(c) ==> 0 <= hex_value(c) < 16,
        c == 'g' || c == 'G' || c == '/' || c == ':' || c == '@' || c == '`' ==> !hex_digit(c),
{
}

/// A byte is two digits, the higher one first.
pub proof fn a_byte_is_two_digits(bytes: Seq<u8>, i: int)
    requires
        0 <= i < bytes.len(),
    ensures
        encoded(bytes).len() == 2 * bytes.len(),
        hex_value(encoded(bytes)[2 * i]) == bytes[i] as int / 16,
        hex_value(encoded(bytes)[2 * i + 1]) == bytes[i] as int % 16,
{
    assert((2 * i) % 2 == 0 && (2 * i) / 2 == i && (2 * i + 1) % 2 == 1 && (2 * i + 1) / 2 == i);
    what_a_digit_stands_for('0', bytes[i] as int / 16);
    what_a_digit_stands_for('0', bytes[i] as int % 16);
}

} // verus!

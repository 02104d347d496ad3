//! Helpers for moving between byte sequences and strings.

use vstd::prelude::*;

verus! {

/// The characters that stand for a byte sequence read off the wire: each
/// byte becomes the char with that code point.
pub open spec fn chars_of_bytes(bytes: Seq<u8>) -> Seq<char> {
    bytes.map_values(|b: u8| b as char)
}

/// Relies on `String`'s `FromIterator` impl (through `collect`): the
/// resulting string holds exactly the given characters in order.
#[verifier::external_body]
pub fn string_from_chars(chars: Vec<char>) -> (r: String)
    ensures
        r@ == chars@,
{
    chars.into_iter().collect()
}

/// The string whose characters are the given bytes, each read as the char
/// with that code point.
pub fn string_from_byte_chars(bytes: &[u8]) -> (r: String)
    ensures
        r@ == chars_of_bytes(bytes@),
{
    let mut cs: Vec<char> = Vec::new();
    let mut i: usize = 0;
    while i < bytes.len()
        invariant
            i <= bytes@.len(),
            cs@ == chars_of_bytes(bytes@.subrange(0, i as int)),
        decreases bytes@.len() - i,
    {
        cs.push(bytes[i] as char);
        proof {
            assert(bytes@.subrange(0, i + 1) =~= bytes@.subrange(0, i as int).push(bytes@[i as int]));
            assert(chars_of_bytes(bytes@.subrange(0, i + 1)) =~= cs@);
        }
        i = i + 1;
    }
    proof {
        assert(bytes@.subrange(0, bytes@.len() as int) =~= bytes@);
    }
    string_from_chars(cs)
}

/// The character for one decimal or hexadecimal digit value.
pub open spec fn spec_digit(d: int) -> char {
    if d == 0 {
        '0'
    } else if d == 1 {
        '1'
    } else if d == 2 {
        '2'
    } else if d == 3 {
        '3'
    } else if d == 4 {
        '4'
    } else if d == 5 {
        '5'
    } else if d == 6 {
        '6'
    } else if d == 7 {
        '7'
    } else if d == 8 {
        '8'
    } else if d == 9 {
        '9'
    } else if d == 10 {
        'a'
    } else if d == 11 {
        'b'
    } else if d == 12 {
        'c'
    } else if d == 13 {
        'd'
    } else if d == 14 {
        'e'
    } else {
        'f'
    }
}

/// A number written in decimal, most significant digit first, no leading
/// zeros.
pub open spec fn spec_dec_chars(n: nat) -> Seq<char>
    decreases n,
{
    if n < 10 {
        seq![spec_digit(n as int)]
    } else {
        spec_dec_chars(n / 10) + seq![spec_digit((n % 10) as int)]
    }
}

/// A number written in lowercase hexadecimal, most significant digit
/// first, no leading zeros.
pub open spec fn spec_hex_chars(n: nat) -> Seq<char>
    decreases n,
{
    if n < 16 {
        seq![spec_digit(n as int)]
    } else {
        spec_hex_chars(n / 16) + seq![spec_digit((n % 16) as int)]
    }
}

/// The character for a digit value below 16.
fn digit_char(d: u64) -> (c: char)
    requires
        d < 16,
    ensures
        c == spec_digit(d as int),
{
    match d {
        0 => '0',
        1 => '1',
        2 => '2',
        3 => '3',
        4 => '4',
        5 => '5',
        6 => '6',
        7 => '7',
        8 => '8',
        9 => '9',
        10 => 'a',
        11 => 'b',
        12 => 'c',
        13 => 'd',
        14 => 'e',
        _ => 'f',
    }
}

/// Append the decimal digits of `n`.
pub fn push_dec_chars(out: &mut Vec<char>, n: u64)
    ensures
        final(out)@ == old(out)@ + spec_dec_chars(n as nat),
    decreases n,
{
    if n < 10 {
        out.push(digit_char(n));
        proof {
            assert(final(out)@ =~= old(out)@ + spec_dec_chars(n as nat));
        }
    } else {
        push_dec_chars(out, n / 10);
        out.push(digit_char(n % 10));
        proof {
            assert(final(out)@ =~= old(out)@ + spec_dec_chars(n as nat));
        }
    }
}

/// Append the lowercase hexadecimal digits of `n`.
pub fn push_hex_chars(out: &mut Vec<char>, n: u64)
    ensures
        final(out)@ == old(out)@ + spec_hex_chars(n as nat),
    decreases n,
{
    if n < 16 {
        out.push(digit_char(n));
        proof {
            assert(final(out)@ =~= old(out)@ + spec_hex_chars(n as nat));
        }
    } else {
        push_hex_chars(out, n / 16);
        out.push(digit_char(n % 16));
        proof {
            assert(final(out)@ =~= old(out)@ + spec_hex_chars(n as nat));
        }
    }
}

/// Relies on `String::from_utf8`: it succeeds exactly on valid UTF-8,
/// and the string's characters are the bytes' decoding.
#[verifier::external_body]
pub fn string_from_utf8(bytes: Vec<u8>) -> (r: Option<String>)
    ensures
        r is Some <==> vstd::utf8::valid_utf8(bytes@),
        r is Some ==> r->Some_0@ == vstd::utf8::decode_utf8(bytes@),
{
    match String::from_utf8(bytes) {
        Ok(s) => Some(s),
        Err(_) => None,
    }
}

/// The decimal text of a number.
pub fn decimal_string(n: u64) -> (r: String)
    ensures
        r@ == spec_dec_chars(n as nat),
{
    let mut cs: Vec<char> = Vec::new();
    push_dec_chars(&mut cs, n);
    string_from_chars(cs)
}

} // verus!

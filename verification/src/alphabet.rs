//! The two alphabets, and the lookup from a character back to the value it
//! stands for.

use vstd::prelude::*;
use vstd::string::*;
use crate::{Base32Type, DecodeError};

verus! {

/// The 32 symbols of RFC 4648, in the order of their values.
pub const RFC4648_ALPHABET: &'static str = "ABCDEFGHIJKLMNOPQRSTUVWXYZ234567";

/// The 32 symbols of Crockford's base32, in the order of their values.
pub const CROCKFORD_ALPHABET: &'static str = "0123456789ABCDEFGHJKMNPQRSTVWXYZ";

/// What an inverse table holds where a character stands for no value.
pub const INVALID: u8 = 255;

/// For each character from `'0'` to `'Z'`, by its distance from `'0'`, the value
/// it stands for under RFC 4648. The padding symbol stands for zero.
pub const RFC4648_INVERSE: [u8; 43] = [
    255, 255, 26, 27, 28, 29, 30, 31, 255, 255, 255, 255, 255, 0, 255, 255, 255, 0, 1, 2, 3, 4, 5,
    6, 7, 8, 9, 10, 11, 12, 13, 14, 15, 16, 17, 18, 19, 20, 21, 22, 23, 24, 25,
];

/// For each character from `'0'` to `'Z'`, by its distance from `'0'`, the value
/// it stands for under Crockford's alphabet. `I` and `L` stand for one, `O` for
/// zero.
pub const CROCKFORD_INVERSE: [u8; 43] = [
    0, 1, 2, 3, 4, 5, 6, 7, 8, 9, 255, 255, 255, 255, 255, 255, 255, 10, 11, 12, 13, 14, 15, 16,
    17, 1, 18, 19, 1, 20, 21, 0, 22, 23, 24, 25, 26, 255, 27, 28, 29, 30, 31,
];

/// The alphabet of a flavour: the symbol at index `v` renders the value `v`.
pub open spec fn alphabet(variant: Base32Type) -> Seq<char> {
    match variant {
        Base32Type::CrockfordBase32 => CROCKFORD_ALPHABET@,
        _ => RFC4648_ALPHABET@,
    }
}

/// The symbol that renders a five-bit value.
pub open spec fn symbol(variant: Base32Type, value: u8) -> char
    recommends
        value < 32,
{
    alphabet(variant)[value as int]
}

/// A small ASCII letter becomes its capital; every other character stays.
pub open spec fn to_upper(c: char) -> char {
    if 'a' <= c <= 'z' {
        (c as u8 - 32) as char
    } else {
        c
    }
}

/// Where `c` stands in `symbols`, if it occurs there.
pub open spec fn position(symbols: Seq<char>, c: char) -> Option<u8> {
    if symbols.contains(c) {
        Some(symbols.index_of(c) as u8)
    } else {
        None
    }
}

/// The five-bit value that a character of a text stands for, if any. Letters
/// count in either case. Under Crockford's alphabet `I` and `L` read as `1`, and
/// `O` as `0`; under RFC 4648 the padding symbol reads as zero, wherever it
/// stands.
pub open spec fn value_of(variant: Base32Type, c: char) -> Option<u8> {
    let u = to_upper(c);
    match variant {
        Base32Type::CrockfordBase32 => {
            if u == 'I' || u == 'L' {
                Some(1u8)
            } else if u == 'O' {
                Some(0u8)
            } else {
                position(CROCKFORD_ALPHABET@, u)
            }
        },
        _ => {
            if u == '=' {
                Some(0u8)
            } else {
                position(RFC4648_ALPHABET@, u)
            }
        },
    }
}

/// The entry of a flavour's inverse table for a character from `'0'` to `'Z'`.
pub open spec fn table_entry(variant: Base32Type, u: char) -> u8
    recommends
        '0' <= u <= 'Z',
{
    match variant {
        Base32Type::CrockfordBase32 => CROCKFORD_INVERSE@[u as int - '0' as int],
        _ => RFC4648_INVERSE@[u as int - '0' as int],
    }
}

/// The symbol that renders `value`, as a text of that one symbol.
pub fn symbol_for(variant: Base32Type, value: u8) -> (rendered: &'static str)
    requires
        value < 32,
    ensures
        rendered@ == seq![symbol(variant, value)],
{
    proof {
        lemma_rfc4648_alphabet();
        lemma_crockford_alphabet();
    }
    let symbols = match variant {
        Base32Type::CrockfordBase32 => CROCKFORD_ALPHABET,
        _ => RFC4648_ALPHABET,
    };
    let at = value as usize;
    let rendered = symbols.substring_ascii(at, at + 1);
    assert(rendered@ =~= seq![symbol(variant, value)]);
    rendered
}

/// The value that a character stands for, given as its byte. The character is
/// put in upper case and looked up in the flavour's inverse table, which covers
/// `'0'` to `'Z'`; one that the table does not cover, or for which it holds
/// `INVALID`, is refused as an invalid character.
pub fn value_for(variant: Base32Type, symbol: u8) -> (value: Result<u8, DecodeError>)
    ensures
        match value_of(variant, symbol as char) {
            Some(v) => value == Ok::<u8, DecodeError>(v) && v < 32,
            None => value == Err::<u8, DecodeError>(DecodeError::InvalidCharacter),
        },
{
    let upper = upper_byte(symbol);
    if upper < '0' as u8 || upper > 'Z' as u8 {
        proof {
            lemma_outside_table(variant, upper as char);
        }
        return Err(DecodeError::InvalidCharacter);
    }
    let offset = (upper - '0' as u8) as usize;
    let entry = match variant {
        Base32Type::CrockfordBase32 => CROCKFORD_INVERSE[offset],
        _ => RFC4648_INVERSE[offset],
    };
    proof {
        lemma_inverse_tables(variant, upper as char);
        lemma_value_of_bound(variant, upper as char);
    }
    if entry == INVALID {
        Err(DecodeError::InvalidCharacter)
    } else {
        Ok(entry)
    }
}

/// The executable form of `to_upper`, on the byte of a character.
fn upper_byte(c: u8) -> (u: u8)
    ensures
        u as char == to_upper(c as char),
{
    if 'a' as u8 <= c && c <= 'z' as u8 {
        c - 32
    } else {
        c
    }
}

/// The RFC 4648 alphabet is the capitals in order, then the digits `2` to `7`.
pub proof fn lemma_rfc4648_alphabet()
    ensures
        RFC4648_ALPHABET@.len() == 32,
        forall|v: int| 0 <= v < 26 ==> (#[trigger] RFC4648_ALPHABET@[v]) as int == 'A' as int + v,
        forall|v: int|
            26 <= v < 32 ==> (#[trigger] RFC4648_ALPHABET@[v]) as int == '2' as int + v - 26,
{
    reveal_strlit("ABCDEFGHIJKLMNOPQRSTUVWXYZ234567");
}

/// Crockford's alphabet is the ten digits, then the capitals without `I`, `L`,
/// `O` and `U`.
pub proof fn lemma_crockford_alphabet()
    ensures
        CROCKFORD_ALPHABET@.len() == 32,
        forall|v: int|
            0 <= v < 10 ==> (#[trigger] CROCKFORD_ALPHABET@[v]) as int == '0' as int + v,
        forall|v: int|
            10 <= v < 18 ==> (#[trigger] CROCKFORD_ALPHABET@[v]) as int == 'A' as int + v - 10,
        forall|v: int|
            18 <= v < 20 ==> (#[trigger] CROCKFORD_ALPHABET@[v]) as int == 'J' as int + v - 18,
        forall|v: int|
            20 <= v < 22 ==> (#[trigger] CROCKFORD_ALPHABET@[v]) as int == 'M' as int + v - 20,
        forall|v: int|
            22 <= v < 27 ==> (#[trigger] CROCKFORD_ALPHABET@[v]) as int == 'P' as int + v - 22,
        forall|v: int|
            27 <= v < 32 ==> (#[trigger] CROCKFORD_ALPHABET@[v]) as int == 'V' as int + v - 27,
{
    reveal_strlit("0123456789ABCDEFGHJKMNPQRSTVWXYZ");
}

/// A symbol of either alphabet is a digit or a capital letter: plain ASCII, its
/// own upper case, and never the padding symbol.
pub proof fn lemma_symbol_is_plain(variant: Base32Type, value: u8)
    requires
        value < 32,
    ensures
        '0' <= symbol(variant, value) <= 'Z',
        symbol(variant, value) != '=',
        to_upper(symbol(variant, value)) == symbol(variant, value),
{
    lemma_rfc4648_alphabet();
    lemma_crockford_alphabet();
}

/// Looking a symbol up gives back the value that it renders.
pub proof fn lemma_value_of_symbol(variant: Base32Type, value: u8)
    requires
        value < 32,
    ensures
        value_of(variant, symbol(variant, value)) == Some(value),
{
    lemma_rfc4648_alphabet();
    lemma_crockford_alphabet();
    let symbols = alphabet(variant);
    let c = symbol(variant, value);
    assert(symbols[value as int] == c);
    let found = symbols.index_of(c);
    assert(0 <= found < 32 && symbols[found] == c);
}

/// A character stands for a value below 32 or for none.
pub proof fn lemma_value_of_bound(variant: Base32Type, c: char)
    ensures
        value_of(variant, c) matches Some(value) ==> value < 32,
{
    lemma_rfc4648_alphabet();
    lemma_crockford_alphabet();
    let u = to_upper(c);
    let symbols = alphabet(variant);
    if symbols.contains(u) {
        let found = symbols.index_of(u);
        assert(0 <= found < 32 && symbols[found] == u);
    }
}

/// The case of a letter makes no difference to the value it stands for.
pub proof fn lemma_value_of_ignores_case(variant: Base32Type, c: char)
    ensures
        value_of(variant, to_upper(c)) == value_of(variant, c),
{
}

/// Under Crockford's alphabet each look-alike letter stands for the value of its
/// digit: `I` and `L` for that of `1`, `O` for that of `0`.
pub proof fn lemma_look_alikes(c: char)
    ensures
        to_upper(c) == 'I' || to_upper(c) == 'L' ==> value_of(Base32Type::CrockfordBase32, c)
            == value_of(Base32Type::CrockfordBase32, '1'),
        to_upper(c) == 'O' ==> value_of(Base32Type::CrockfordBase32, c) == value_of(
            Base32Type::CrockfordBase32,
            '0',
        ),
        value_of(Base32Type::CrockfordBase32, '1') == Some(1u8),
        value_of(Base32Type::CrockfordBase32, '0') == Some(0u8),
{
    lemma_crockford_alphabet();
    lemma_value_of_symbol(Base32Type::CrockfordBase32, 0);
    lemma_value_of_symbol(Base32Type::CrockfordBase32, 1);
}

/// A character outside `'0'` to `'Z'` that is its own upper case stands for no
/// value.
pub proof fn lemma_outside_table(variant: Base32Type, u: char)
    requires
        to_upper(u) == u,
        u < '0' || u > 'Z',
    ensures
        value_of(variant, u) is None,
{
    lemma_rfc4648_alphabet();
    lemma_crockford_alphabet();
    let symbols = alphabet(variant);
    if symbols.contains(u) {
        let found = symbols.index_of(u);
        assert(0 <= found < 32 && symbols[found] == u);
    }
}

/// Each inverse table agrees with `value_of` on every character it covers: it
/// holds the character's value, or `INVALID` where the character has none.
pub proof fn lemma_inverse_tables(variant: Base32Type, u: char)
    requires
        '0' <= u <= 'Z',
    ensures
        value_of(variant, u) == (if table_entry(variant, u) == INVALID {
            None
        } else {
            Some(table_entry(variant, u))
        }),
{
    lemma_rfc4648_alphabet();
    lemma_crockford_alphabet();
    let symbols = alphabet(variant);
    let entry = table_entry(variant, u);
    if symbols.contains(u) {
        let found = symbols.index_of(u);
        assert(0 <= found < 32 && symbols[found] == u);
    }
    if entry != INVALID && entry < 32 && symbols[entry as int] == u {
        assert(symbols.contains(u));
    }
}

} // verus!

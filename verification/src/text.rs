//! What the text of a byte sequence is, and which bytes a text stands for.

use vstd::prelude::*;
use vstd::utf8::is_ascii_chars;
use crate::alphabet::{symbol, value_of};
use crate::packing::{octet, octet_count, quintet, quintet_count};
use crate::{Base32Type, DecodeError};

verus! {

/// The characters that a sequence of bytes spells, each byte read as one
/// character.
pub open spec fn ascii_text(bytes: Seq<u8>) -> Seq<char> {
    Seq::new(bytes.len(), |i: int| bytes[i] as char)
}

/// The bytes of an ASCII text, one for each character.
pub open spec fn ascii_bytes(text: Seq<char>) -> Seq<u8>
    recommends
        is_ascii_chars(text),
{
    Seq::new(text.len(), |i: int| text[i] as u8)
}

/// The symbols of a byte sequence, without padding: one for each quintet that
/// holds a bit of the input.
pub open spec fn symbols_of(variant: Base32Type, octets: Seq<u8>) -> Seq<char> {
    Seq::new(quintet_count(octets.len()), |k: int| symbol(variant, quintet(octets, k)))
}

/// How many `=` fill up the final group of a padded text of `octets` octets: none
/// after a whole group, else what the symbols of the final group lack of eight.
pub open spec fn padding_len(octets: nat) -> nat {
    if octets % 5 == 0 {
        0
    } else {
        (8 - quintet_count(octets % 5)) as nat
    }
}

/// The text that encodes a byte sequence: its symbols and, in the padded
/// flavour, the padding after them.
pub open spec fn encoded_text(variant: Base32Type, octets: Seq<u8>) -> Seq<char> {
    match variant {
        Base32Type::RFC4648Base32 => symbols_of(variant, octets) + Seq::new(
            padding_len(octets.len()),
            |i: int| '=',
        ),
        _ => symbols_of(variant, octets),
    }
}

/// The number of `=` at the end of a text, counting no more than `limit`.
pub open spec fn trailing_padding(text: Seq<char>, limit: nat) -> nat
    decreases limit,
{
    if limit == 0 || text.len() == 0 || text.last() != '=' {
        0
    } else {
        1 + trailing_padding(text.drop_last(), (limit - 1) as nat)
    }
}

/// How many bytes a text stands for: up to six `=` at its end are set aside, and
/// what is left holds five bits a character, eight to a byte; bits that fill no
/// whole byte do not count.
pub open spec fn decoded_len(text: Seq<char>) -> nat {
    octet_count((text.len() - trailing_padding(text, 6)) as nat)
}

/// True where every character of the text stands for a value.
pub open spec fn all_valid(variant: Base32Type, text: Seq<char>) -> bool {
    forall|i: int| 0 <= i < text.len() ==> (#[trigger] value_of(variant, text[i])) is Some
}

/// The value of each character of a text.
pub open spec fn values_of(variant: Base32Type, text: Seq<char>) -> Seq<u8>
    recommends
        all_valid(variant, text),
{
    Seq::new(text.len(), |i: int| value_of(variant, text[i]).unwrap())
}

/// What decoding a text gives. A text with a character outside ASCII is refused
/// as such. Else a text with a character that stands for no value is refused,
/// wherever that character stands. Else the text stands for the first
/// `decoded_len` octets of the values of all its characters, with zeros after
/// the last of them.
pub open spec fn decoded(variant: Base32Type, text: Seq<char>) -> Result<Seq<u8>, DecodeError> {
    if !is_ascii_chars(text) {
        Err(DecodeError::NonAsciiInput)
    } else if !all_valid(variant, text) {
        Err(DecodeError::InvalidCharacter)
    } else {
        Ok(Seq::new(decoded_len(text), |k: int| octet(values_of(variant, text), k)))
    }
}

} // verus!

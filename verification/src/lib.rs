//! Base32 encoding and decoding of byte sequences, in three flavours: RFC 4648
//! with padding, RFC 4648 without padding, and Crockford's alphabet.
//!
//! A text holds five bits a character. Encoding takes the bytes five at a time,
//! as groups of 40 bits, and renders each group as eight symbols; decoding goes
//! the other way. What a text is, and what bytes a text stands for, is stated in
//! [`text`]; [`laws`] proves that the two fit together.

use vstd::prelude::*;
use vstd::string::*;
use vstd::utf8::is_ascii_chars;
use crate::alphabet::{lemma_value_of_bound, symbol, symbol_for, value_for, value_of};
use crate::packing::{
    group_at, join_group, lemma_octets_of_group, lemma_quintets_of_group, octet, quintet,
    split_group,
};
use crate::text::{
    all_valid, ascii_text, decoded, decoded_len, encoded_text, symbols_of, trailing_padding,
    values_of,
};

pub mod alphabet;
pub mod crockford_base32;
pub mod laws;
pub mod packing;
pub mod text;

verus! {

/// The flavour of base32 that a call encodes to or decodes from.
#[derive(Clone, Copy, Debug, PartialEq, Eq, Structural)]
pub enum Base32Type {
    /// The RFC 4648 alphabet; a short final group is filled up with `=`.
    RFC4648Base32,
    /// Crockford's alphabet, which leaves out `I`, `L`, `O` and `U`; never padded.
    CrockfordBase32,
    /// The RFC 4648 alphabet; a short final group is left short.
    UnpaddedRFC4648Base32,
}

/// Why a text could not be decoded.
#[derive(Clone, Copy, Debug, PartialEq, Eq, Structural)]
pub enum DecodeError {
    /// The text holds a character outside ASCII.
    NonAsciiInput,
    /// The text holds a character that stands for no value in the chosen flavour.
    InvalidCharacter,
}

/// Encodes `data` as text in the given flavour. Every byte sequence has a text:
/// a symbol for each quintet that holds one of its bits and, in the padded
/// flavour, as many `=` as the final group then lacks of eight characters.
pub fn encode(base32_type: Base32Type, data: &[u8]) -> (text: String)
    ensures
        text@ == encoded_text(base32_type, data@),
{
    let whole_groups = data.len() / 5;
    let rest = data.len() % 5;
    let mut text = String::new();
    let mut g: usize = 0;
    while g < whole_groups
        invariant
            g <= whole_groups,
            whole_groups == data.len() / 5,
            text@ == Seq::new((8 * g) as nat, |k: int| symbol(base32_type, quintet(data@, k))),
        decreases whole_groups - g,
    {
        let quintets = split_group(&read_group(data, 5 * g));
        push_symbols(&mut text, base32_type, &quintets, 8);
        proof {
            lemma_quintets_of_group(data@, g as int);
            assert(text@ =~= Seq::new(
                (8 * (g + 1)) as nat,
                |k: int| symbol(base32_type, quintet(data@, k)),
            ));
        }
        g += 1;
    }
    if rest != 0 {
        let quintets = split_group(&read_group(data, 5 * whole_groups));
        let emitted = (rest * 8 + 4) / 5;
        push_symbols(&mut text, base32_type, &quintets, emitted);
        proof {
            lemma_quintets_of_group(data@, whole_groups as int);
            assert(text@ =~= symbols_of(base32_type, data@));
        }
        if let Base32Type::RFC4648Base32 = base32_type {
            push_padding(&mut text, 8 - emitted);
        }
    }
    assert(text@ =~= encoded_text(base32_type, data@));
    text
}

/// Decodes a text in the given flavour, and says why where it cannot: the text
/// holds a character outside ASCII, or else one that stands for no value.
///
/// Up to six `=` at the end of the text are set aside before its length is
/// taken. A final group of fewer than eight characters is read as if zeros
/// followed it, and the bits that fill no whole byte are dropped, whatever they
/// are: no length and no stray bit is refused.
pub fn try_decode(base32_type: Base32Type, data: &str) -> (result: Result<Vec<u8>, DecodeError>)
    ensures
        match decoded(base32_type, data@) {
            Ok(octets) => result matches Ok(bytes) && bytes@ == octets,
            Err(e) => result == Err::<Vec<u8>, DecodeError>(e),
        },
{
    if !data.is_ascii() {
        return Err(DecodeError::NonAsciiInput);
    }
    let symbols = data.as_bytes();
    proof {
        is_ascii_spec_bytes(data);
        assert(ascii_text(symbols@) =~= data@);
    }
    decode_ascii(base32_type, symbols)
}

/// Decodes a text in the given flavour: the bytes it stands for, or `None` where
/// `try_decode` gives an error.
pub fn decode(base32_type: Base32Type, data: &str) -> (result: Option<Vec<u8>>)
    ensures
        match decoded(base32_type, data@) {
            Ok(octets) => result matches Some(bytes) && bytes@ == octets,
            Err(_) => result is None,
        },
{
    match try_decode(base32_type, data) {
        Ok(bytes) => Some(bytes),
        Err(_) => None,
    }
}

/// Decodes a text given as its ASCII bytes.
pub(crate) fn decode_ascii(variant: Base32Type, symbols: &[u8]) -> (result: Result<
    Vec<u8>,
    DecodeError,
>)
    requires
        forall|i: int| 0 <= i < symbols.len() ==> symbols@[i] < 128,
    ensures
        match decoded(variant, ascii_text(symbols@)) {
            Ok(octets) => result matches Ok(bytes) && bytes@ == octets,
            Err(e) => result == Err::<Vec<u8>, DecodeError>(e),
        },
{
    let ghost text = ascii_text(symbols@);
    let ghost values = values_of(variant, text);
    assert(is_ascii_chars(text));
    let kept = unpadded_len(symbols);
    let output_length = kept / 8 * 5 + kept % 8 * 5 / 8;
    assert(output_length == decoded_len(text));
    let groups = if symbols.len() % 8 == 0 {
        symbols.len() / 8
    } else {
        symbols.len() / 8 + 1
    };
    let mut bytes: Vec<u8> = Vec::with_capacity(5 * groups);
    let mut g: usize = 0;
    while g < groups
        invariant
            g <= groups,
            symbols.len() <= 8 * groups < symbols.len() + 8,
            text == ascii_text(symbols@),
            is_ascii_chars(text),
            values == values_of(variant, text),
            forall|i: int|
                0 <= i < 8 * g && i < text.len() ==> (#[trigger] value_of(variant, text[i]))
                    is Some,
            bytes@ == Seq::new((5 * g) as nat, |k: int| octet(values, k)),
        decreases groups - g,
    {
        let group = match read_values(variant, symbols, 8 * g) {
            Ok(group) => group,
            Err(e) => {
                return Err(e);
            },
        };
        proof {
            lemma_holds_values(variant, text, g as int, group@);
        }
        let octets = join_group(&group);
        bytes.push(octets[0]);
        bytes.push(octets[1]);
        bytes.push(octets[2]);
        bytes.push(octets[3]);
        bytes.push(octets[4]);
        proof {
            lemma_octets_of_group(values, g as int);
            assert(bytes@ =~= Seq::new((5 * (g + 1)) as nat, |k: int| octet(values, k)));
        }
        g += 1;
    }
    bytes.truncate(output_length);
    proof {
        assert(all_valid(variant, text));
        assert(bytes@ =~= Seq::new(decoded_len(text), |k: int| octet(values, k)));
    }
    Ok(bytes)
}

/// Reads the five octets of `data` from index `start` on; where `data` ends
/// before the fifth, zeros follow.
fn read_group(data: &[u8], start: usize) -> (group: [u8; 5])
    requires
        start <= data.len(),
    ensures
        group@ == group_at(data@, start as int, 5),
{
    let present = data.len() - start;
    let mut group = [0u8; 5];
    let mut j: usize = 0;
    while j < 5 && j < present
        invariant
            j <= 5,
            j <= present,
            present == data.len() - start,
            forall|i: int| 0 <= i < j ==> group@[i] == data@[start + i],
            forall|i: int| j <= i < 5 ==> group@[i] == 0,
        decreases 5 - j,
    {
        group[j] = data[start + j];
        j += 1;
    }
    assert(group@ =~= group_at(data@, start as int, 5));
    group
}

/// Appends the symbols of the first `count` quintets of a group.
fn push_symbols(text: &mut String, variant: Base32Type, quintets: &[u8; 8], count: usize)
    requires
        count <= 8,
        forall|j: int| 0 <= j < 8 ==> quintets@[j] < 32,
    ensures
        final(text)@ == old(text)@ + Seq::new(
            count as nat,
            |j: int| symbol(variant, quintets@[j]),
        ),
{
    let mut j: usize = 0;
    while j < count
        invariant
            j <= count <= 8,
            forall|i: int| 0 <= i < 8 ==> quintets@[i] < 32,
            text@ == old(text)@ + Seq::new(j as nat, |i: int| symbol(variant, quintets@[i])),
        decreases count - j,
    {
        text.append(symbol_for(variant, quintets[j]));
        j += 1;
        assert(text@ =~= old(text)@ + Seq::new(
            j as nat,
            |i: int| symbol(variant, quintets@[i]),
        ));
    }
}

/// Appends `count` padding symbols.
fn push_padding(text: &mut String, count: usize)
    ensures
        final(text)@ == old(text)@ + Seq::new(count as nat, |i: int| '='),
{
    let mut j: usize = 0;
    while j < count
        invariant
            j <= count,
            text@ == old(text)@ + Seq::new(j as nat, |i: int| '='),
        decreases count - j,
    {
        proof {
            reveal_strlit("=");
        }
        text.append("=");
        j += 1;
        assert(text@ =~= old(text)@ + Seq::new(j as nat, |i: int| '='));
    }
}

/// Counts the `=` at the end of a text, up to six, and returns how many
/// characters stand before them.
fn unpadded_len(symbols: &[u8]) -> (kept: usize)
    ensures
        kept == symbols.len() - trailing_padding(ascii_text(symbols@), 6),
{
    let ghost text = ascii_text(symbols@);
    let mut kept = symbols.len();
    let mut set_aside: usize = 0;
    assert(text.subrange(0, kept as int) =~= text);
    while set_aside < 6 && kept > 0 && symbols[kept - 1] == '=' as u8
        invariant
            set_aside <= 6,
            kept + set_aside == symbols.len(),
            text == ascii_text(symbols@),
            trailing_padding(text, 6) == set_aside + trailing_padding(
                text.subrange(0, kept as int),
                (6 - set_aside) as nat,
            ),
        decreases kept,
    {
        assert(text.subrange(0, kept as int).drop_last() =~= text.subrange(0, kept - 1));
        kept -= 1;
        set_aside += 1;
    }
    kept
}

/// Looks up the eight characters of `symbols` from index `start` on; where the
/// text ends before the eighth, zeros follow. An error where one of them stands
/// for no value.
fn read_values(variant: Base32Type, symbols: &[u8], start: usize) -> (values: Result<
    [u8; 8],
    DecodeError,
>)
    requires
        start <= symbols.len(),
    ensures
        match values {
            Ok(group) => holds_values(variant, ascii_text(symbols@), start as int, group@),
            Err(e) => e == DecodeError::InvalidCharacter && !all_valid(
                variant,
                ascii_text(symbols@),
            ),
        },
{
    let ghost text = ascii_text(symbols@);
    let present = symbols.len() - start;
    let mut group = [0u8; 8];
    let mut j: usize = 0;
    while j < 8 && j < present
        invariant
            j <= 8,
            j <= present,
            present == symbols.len() - start,
            text == ascii_text(symbols@),
            forall|i: int|
                0 <= i < j ==> value_of(variant, text[start + i]) == Some(#[trigger] group@[i]),
            forall|i: int| j <= i < 8 ==> group@[i] == 0,
        decreases 8 - j,
    {
        match value_for(variant, symbols[start + j]) {
            Ok(value) => {
                group[j] = value;
            },
            Err(e) => {
                assert(value_of(variant, text[start + j]) is None);
                return Err(e);
            },
        }
        j += 1;
    }
    Ok(group)
}

/// True where `group` holds the values of the eight characters of `text` from
/// index `start` on, and zeros where the text has ended.
spec fn holds_values(variant: Base32Type, text: Seq<char>, start: int, group: Seq<u8>) -> bool {
    &&& group.len() == 8
    &&& forall|j: int|
        0 <= j < 8 ==> if start + j < text.len() {
            value_of(variant, text[start + j]) == Some(#[trigger] group[j])
        } else {
            group[j] == 0
        }
}

/// A group that holds the values of a text's characters is the group of the
/// text's values at that place, and holds quintets.
proof fn lemma_holds_values(variant: Base32Type, text: Seq<char>, g: int, group: Seq<u8>)
    requires
        0 <= g,
        holds_values(variant, text, 8 * g, group),
    ensures
        group == group_at(values_of(variant, text), 8 * g, 8),
        forall|j: int| 0 <= j < 8 ==> group[j] < 32,
        forall|i: int|
            8 * g <= i < 8 * g + 8 && i < text.len() ==> (#[trigger] value_of(variant, text[i]))
                is Some,
{
    let values = values_of(variant, text);
    assert forall|j: int| 0 <= j < 8 implies group[j] == #[trigger] group_at(values, 8 * g, 8)[j]
        && group[j] < 32 by {
        if 8 * g + j < text.len() {
            assert(value_of(variant, text[8 * g + j]) == Some(group[j]));
            lemma_value_of_bound(variant, text[8 * g + j]);
        } else {
            assert(group[j] == 0);
        }
    }
    assert(group =~= group_at(values, 8 * g, 8));
    assert forall|i: int| 8 * g <= i < 8 * g + 8 && i < text.len() implies (#[trigger] value_of(
        variant,
        text[i],
    )) is Some by {
        assert(value_of(variant, text[8 * g + (i - 8 * g)]) == Some(group[i - 8 * g]));
    }
}

} // verus!

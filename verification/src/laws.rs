//! What holds of encoding and decoding together: the layout of an encoded text,
//! that decoding undoes encoding, and which differences between two texts make
//! no difference to what they decode to.

use vstd::prelude::*;
use vstd::utf8::is_ascii_chars;
use crate::alphabet::{
    lemma_look_alikes, lemma_symbol_is_plain, lemma_value_of_symbol, symbol, to_upper, value_of,
};
use crate::packing::{
    item_or_zero, lemma_octet_count_of_quintet_count, lemma_octet_of_quintets,
    lemma_quintet_bound, lemma_quintet_past_end, quintet, quintet_count,
};
use crate::text::{
    all_valid, ascii_bytes, ascii_text, decoded, decoded_len, encoded_text, padding_len,
    trailing_padding, values_of,
};
use crate::{Base32Type, DecodeError};

verus! {

/// How many `=` end the text of `octets` octets in a flavour: the padding of
/// RFC 4648, none in the other two.
pub open spec fn padding_of(variant: Base32Type, octets: nat) -> nat {
    match variant {
        Base32Type::RFC4648Base32 => padding_len(octets),
        _ => 0,
    }
}

/// A capital ASCII letter becomes its small letter; every other character stays.
pub open spec fn to_lower(c: char) -> char {
    if 'A' <= c <= 'Z' {
        (c as u8 + 32) as char
    } else {
        c
    }
}

/// The text with each capital ASCII letter made small.
pub open spec fn lower_case(text: Seq<char>) -> Seq<char> {
    Seq::new(text.len(), |i: int| to_lower(text[i]))
}

/// The text with each small ASCII letter made capital.
pub open spec fn upper_case(text: Seq<char>) -> Seq<char> {
    Seq::new(text.len(), |i: int| to_upper(text[i]))
}

/// Under Crockford's alphabet, the digit that a look-alike letter is read as: `1`
/// for `I` and `L`, `0` for `O`, in either case. Every other character stays.
pub open spec fn resolve_alias(c: char) -> char {
    if c == 'I' || c == 'i' || c == 'L' || c == 'l' {
        '1'
    } else if c == 'O' || c == 'o' {
        '0'
    } else {
        c
    }
}

/// The text with each look-alike letter replaced by its digit.
pub open spec fn resolve_aliases(text: Seq<char>) -> Seq<char> {
    Seq::new(text.len(), |i: int| resolve_alias(text[i]))
}

/// The layout of an encoded text: first a symbol for each quintet, none of them
/// `=`, then the padding, all of it `=` and at most six long.
pub proof fn lemma_encoded_layout(variant: Base32Type, octets: Seq<u8>)
    ensures
        encoded_text(variant, octets).len() == quintet_count(octets.len()) + padding_of(
            variant,
            octets.len(),
        ),
        padding_of(variant, octets.len()) <= 6,
        forall|k: int|
            0 <= k < quintet_count(octets.len()) ==> #[trigger] encoded_text(variant, octets)[k]
                == symbol(variant, quintet(octets, k)) && encoded_text(variant, octets)[k] != '=',
        forall|k: int|
            quintet_count(octets.len()) <= k < encoded_text(variant, octets).len()
                ==> #[trigger] encoded_text(variant, octets)[k] == '=',
{
    let text = encoded_text(variant, octets);
    assert forall|k: int| 0 <= k < quintet_count(octets.len()) implies #[trigger] text[k]
        == symbol(variant, quintet(octets, k)) && text[k] != '=' by {
        lemma_quintet_bound(octets, k);
        lemma_symbol_is_plain(variant, quintet(octets, k));
    }
}

/// A padded text is a whole number of groups of eight characters: eight for
/// every five octets begun. Its padding is 0, 6, 4, 3 or 1 long, as the octets
/// past the last whole group are 0, 1, 2, 3 or 4; all of the padding is `=`, and
/// no `=` stands before it.
pub proof fn lemma_padded_layout(octets: Seq<u8>)
    ensures
        ({
            let text = encoded_text(Base32Type::RFC4648Base32, octets);
            let padding = padding_len(octets.len());
            &&& text.len() == 8 * ((octets.len() + 4) / 5)
            &&& padding == seq![0nat, 6, 4, 3, 1][(octets.len() % 5) as int]
            &&& forall|i: int| text.len() - padding <= i < text.len() ==> text[i] == '='
            &&& forall|i: int| 0 <= i < text.len() - padding ==> text[i] != '='
        }),
{
    lemma_encoded_layout(Base32Type::RFC4648Base32, octets);
}

/// The unpadded text in the RFC 4648 alphabet is the padded text without its
/// padding.
pub proof fn lemma_unpadded_is_prefix(octets: Seq<u8>)
    ensures
        encoded_text(Base32Type::UnpaddedRFC4648Base32, octets) == encoded_text(
            Base32Type::RFC4648Base32,
            octets,
        ).subrange(0, quintet_count(octets.len()) as int),
{
    assert(encoded_text(Base32Type::UnpaddedRFC4648Base32, octets) =~= encoded_text(
        Base32Type::RFC4648Base32,
        octets,
    ).subrange(0, quintet_count(octets.len()) as int));
}

/// An encoded text is ASCII throughout.
pub proof fn lemma_encoded_is_ascii(variant: Base32Type, octets: Seq<u8>)
    ensures
        is_ascii_chars(encoded_text(variant, octets)),
{
    let text = encoded_text(variant, octets);
    lemma_encoded_layout(variant, octets);
    assert forall|i: int| 0 <= i < text.len() implies '\0' <= #[trigger] text[i] <= '\u{7f}' by {
        if i < quintet_count(octets.len()) {
            lemma_quintet_bound(octets, i);
            lemma_symbol_is_plain(variant, quintet(octets, i));
        }
    }
}

/// A text that ends in `count` padding symbols, with another character or
/// nothing before them, has `count` trailing padding symbols; where `limit` or
/// more end it, `limit` are counted.
pub proof fn lemma_trailing_padding(text: Seq<char>, count: nat, limit: nat)
    requires
        count <= text.len(),
        forall|i: int| text.len() - count <= i < text.len() ==> text[i] == '=',
        count == text.len() || text[text.len() - count - 1] != '=' || count >= limit,
    ensures
        trailing_padding(text, limit) == if count <= limit {
            count
        } else {
            limit
        },
    decreases limit,
{
    if limit > 0 && count > 0 {
        lemma_trailing_padding(text.drop_last(), (count - 1) as nat, (limit - 1) as nat);
    }
}

/// Decoding the text of a byte sequence gives the byte sequence back, in every
/// flavour.
pub proof fn lemma_decode_encode(variant: Base32Type, octets: Seq<u8>)
    ensures
        decoded(variant, encoded_text(variant, octets)) == Ok::<Seq<u8>, DecodeError>(octets),
{
    let text = encoded_text(variant, octets);
    let count = quintet_count(octets.len());
    lemma_encoded_layout(variant, octets);
    lemma_encoded_is_ascii(variant, octets);
    // Each symbol stands for the quintet that it renders, and padding for zero.
    assert forall|i: int| 0 <= i < text.len() implies #[trigger] value_of(variant, text[i])
        == Some(item_or_zero(Seq::new(count, |k: int| quintet(octets, k)), i)) by {
        if i < count {
            lemma_quintet_bound(octets, i);
            lemma_value_of_symbol(variant, quintet(octets, i));
        }
    }
    assert(all_valid(variant, text));
    // The text is as long as its symbols and its padding, so it stands for as
    // many bytes as went in.
    lemma_trailing_padding(text, padding_of(variant, octets.len()), 6);
    lemma_octet_count_of_quintet_count(octets.len());
    assert(decoded_len(text) == octets.len());
    // The values of the text are the quintets of the bytes, and zero after them.
    let values = values_of(variant, text);
    assert forall|i: int| 0 <= i implies #[trigger] item_or_zero(values, i) == quintet(
        octets,
        i,
    ) by {
        if i >= count {
            lemma_quintet_past_end(octets, i);
        }
    }
    let bytes = decoded(variant, text).unwrap();
    assert forall|k: int| 0 <= k < octets.len() implies bytes[k] == octets[k] by {
        lemma_octet_of_quintets(octets, values, k);
    }
    assert(bytes =~= octets);
}

/// An ASCII text is the text of its bytes.
pub proof fn lemma_ascii_text_of_bytes(text: Seq<char>)
    requires
        is_ascii_chars(text),
    ensures
        ascii_text(ascii_bytes(text)) == text,
{
    assert(ascii_text(ascii_bytes(text)) =~= text);
}

/// Decoding the bytes of the Crockford text of a byte sequence gives the byte
/// sequence back.
pub proof fn lemma_decode_encode_bytes(octets: Seq<u8>)
    ensures
        decoded(
            Base32Type::CrockfordBase32,
            ascii_text(ascii_bytes(encoded_text(Base32Type::CrockfordBase32, octets))),
        ) == Ok::<Seq<u8>, DecodeError>(octets),
{
    lemma_encoded_is_ascii(Base32Type::CrockfordBase32, octets);
    lemma_ascii_text_of_bytes(encoded_text(Base32Type::CrockfordBase32, octets));
    lemma_decode_encode(Base32Type::CrockfordBase32, octets);
}

/// Two texts of one length decode alike where, place by place, their characters
/// are both ASCII or both not, are both `=` or both not, and stand for the same
/// value or both for none.
pub proof fn lemma_decoded_alike(variant: Base32Type, a: Seq<char>, b: Seq<char>)
    requires
        a.len() == b.len(),
        forall|i: int| 0 <= i < a.len() ==> (a[i] <= '\u{7f}' <==> b[i] <= '\u{7f}'),
        forall|i: int| 0 <= i < a.len() ==> (a[i] == '=' <==> b[i] == '='),
        forall|i: int| 0 <= i < a.len() ==> value_of(variant, a[i]) == value_of(variant, b[i]),
    ensures
        decoded(variant, a) == decoded(variant, b),
{
    if is_ascii_chars(a) {
        assert forall|i: int| 0 <= i < b.len() implies '\0' <= #[trigger] b[i] <= '\u{7f}' by {
            assert('\0' <= a[i] <= '\u{7f}');
        }
    }
    if is_ascii_chars(b) {
        assert forall|i: int| 0 <= i < a.len() implies '\0' <= #[trigger] a[i] <= '\u{7f}' by {
            assert('\0' <= b[i] <= '\u{7f}');
        }
    }
    if all_valid(variant, a) {
        assert forall|i: int| 0 <= i < b.len() implies (#[trigger] value_of(variant, b[i]))
            is Some by {
            assert(value_of(variant, a[i]) is Some);
        }
    }
    if all_valid(variant, b) {
        assert forall|i: int| 0 <= i < a.len() implies (#[trigger] value_of(variant, a[i]))
            is Some by {
            assert(value_of(variant, b[i]) is Some);
        }
    }
    lemma_trailing_padding_alike(a, b, 6);
    assert(values_of(variant, a) =~= values_of(variant, b));
}

/// Two texts of one length with `=` at the same places end in equally many `=`.
proof fn lemma_trailing_padding_alike(a: Seq<char>, b: Seq<char>, limit: nat)
    requires
        a.len() == b.len(),
        forall|i: int| 0 <= i < a.len() ==> (a[i] == '=' <==> b[i] == '='),
    ensures
        trailing_padding(a, limit) == trailing_padding(b, limit),
    decreases limit,
{
    if limit > 0 && a.len() > 0 {
        lemma_trailing_padding_alike(a.drop_last(), b.drop_last(), (limit - 1) as nat);
    }
}

/// The case of the letters of a text makes no difference to what it decodes to,
/// in every flavour: the text in small letters and the text in capitals both
/// decode as the text itself.
pub proof fn lemma_decoding_ignores_case(variant: Base32Type, text: Seq<char>)
    ensures
        decoded(variant, lower_case(text)) == decoded(variant, text),
        decoded(variant, upper_case(text)) == decoded(variant, text),
{
    assert forall|i: int| 0 <= i < text.len() implies to_upper(to_lower(text[i])) == to_upper(
        text[i],
    ) && to_upper(to_upper(text[i])) == to_upper(text[i]) by {}
    lemma_decoded_alike(variant, lower_case(text), text);
    lemma_decoded_alike(variant, upper_case(text), text);
}

/// Under Crockford's alphabet a look-alike letter decodes as its digit: a text
/// and the text with `I`, `i`, `L`, `l` replaced by `1` and `O`, `o` by `0`
/// decode alike.
pub proof fn lemma_crockford_aliases(text: Seq<char>)
    ensures
        decoded(Base32Type::CrockfordBase32, resolve_aliases(text)) == decoded(
            Base32Type::CrockfordBase32,
            text,
        ),
{
    assert forall|i: int| 0 <= i < text.len() implies value_of(
        Base32Type::CrockfordBase32,
        resolve_alias(text[i]),
    ) == value_of(Base32Type::CrockfordBase32, text[i]) by {
        lemma_look_alikes(text[i]);
    }
    lemma_decoded_alike(Base32Type::CrockfordBase32, resolve_aliases(text), text);
}

/// The two flavours of RFC 4648 decode alike: padding is set aside where it
/// stands, and asked for nowhere.
pub proof fn lemma_rfc4648_flavours_decode_alike(text: Seq<char>)
    ensures
        decoded(Base32Type::UnpaddedRFC4648Base32, text) == decoded(
            Base32Type::RFC4648Base32,
            text,
        ),
{
    let padded = Base32Type::RFC4648Base32;
    let unpadded = Base32Type::UnpaddedRFC4648Base32;
    assert forall|i: int| 0 <= i < text.len() implies value_of(unpadded, text[i]) == value_of(
        padded,
        text[i],
    ) by {}
    if all_valid(padded, text) {
        assert forall|i: int| 0 <= i < text.len() implies (#[trigger] value_of(unpadded, text[i]))
            is Some by {
            assert(value_of(padded, text[i]) is Some);
        }
    }
    if all_valid(unpadded, text) {
        assert forall|i: int| 0 <= i < text.len() implies (#[trigger] value_of(padded, text[i]))
            is Some by {
            assert(value_of(unpadded, text[i]) is Some);
        }
    }
    assert(values_of(unpadded, text) =~= values_of(padded, text));
}

/// A text with a character that stands for no value is refused, whatever else it
/// holds; `InvalidCharacter` is the reason where all of it is ASCII.
pub proof fn lemma_invalid_character_refused(variant: Base32Type, text: Seq<char>, i: int)
    requires
        0 <= i < text.len(),
        value_of(variant, text[i]) is None,
    ensures
        decoded(variant, text) is Err,
        is_ascii_chars(text) ==> decoded(variant, text) == Err::<Seq<u8>, DecodeError>(
            DecodeError::InvalidCharacter,
        ),
{
}

} // verus!

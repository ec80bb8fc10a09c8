//! Crockford's base32 on its own, for callers that hold a text as its ASCII
//! bytes. The texts are those of the Crockford flavour of the crate's root.

use vstd::prelude::*;
use vstd::string::*;
use crate::laws::lemma_encoded_is_ascii;
use crate::text::{ascii_bytes, ascii_text, decoded, encoded_text};
use crate::{decode_ascii, Base32Type};

verus! {

/// Encodes `data` in Crockford's alphabet, without padding, as ASCII bytes.
pub fn encode(data: &[u8]) -> (text: Vec<u8>)
    ensures
        text@ == ascii_bytes(encoded_text(Base32Type::CrockfordBase32, data@)),
{
    let text = crate::encode(Base32Type::CrockfordBase32, data);
    let symbols = text.as_str();
    proof {
        lemma_encoded_is_ascii(Base32Type::CrockfordBase32, data@);
        is_ascii_spec_bytes(symbols);
    }
    let bytes = symbols.as_bytes_vec();
    assert(bytes@ =~= ascii_bytes(text@));
    bytes
}

/// Decodes a text in Crockford's alphabet, given as bytes: the bytes it stands
/// for, or `None` where it holds a byte outside ASCII or a character that stands
/// for no value. Letters count in either case; `I` and `L` read as `1`, `O` as
/// `0`. A final group of fewer than eight characters is read as if zeros
/// followed it, and the bits that fill no whole byte are dropped.
pub fn decode(data: &[u8]) -> (result: Option<Vec<u8>>)
    ensures
        match decoded(Base32Type::CrockfordBase32, ascii_text(data@)) {
            Ok(octets) => result matches Some(bytes) && bytes@ == octets,
            Err(_) => result is None,
        },
{
    if !all_ascii(data) {
        proof {
            let i = choose|i: int| 0 <= i < data.len() && data@[i] >= 128;
            assert(ascii_text(data@)[i] > '\u{7f}');
        }
        return None;
    }
    match decode_ascii(Base32Type::CrockfordBase32, data) {
        Ok(bytes) => Some(bytes),
        Err(_) => None,
    }
}

/// True where every byte is an ASCII character.
fn all_ascii(data: &[u8]) -> (ascii: bool)
    ensures
        ascii == forall|i: int| 0 <= i < data.len() ==> data@[i] < 128,
{
    let mut i: usize = 0;
    while i < data.len()
        invariant
            i <= data.len(),
            forall|j: int| 0 <= j < i ==> data@[j] < 128,
        decreases data.len() - i,
    {
        if data[i] >= 128 {
            return false;
        }
        i += 1;
    }
    true
}

} // verus!

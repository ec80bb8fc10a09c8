use base32::alphabet::{
    symbol_for, value_for, CROCKFORD_ALPHABET, CROCKFORD_INVERSE, INVALID, RFC4648_ALPHABET,
    RFC4648_INVERSE,
};
use base32::packing::{join_group, split_group};
use base32::Base32Type::{CrockfordBase32, RFC4648Base32, UnpaddedRFC4648Base32};
use base32::DecodeError;

#[test]
fn alphabets_are_the_literal_ones() {
    assert_eq!(RFC4648_ALPHABET, "ABCDEFGHIJKLMNOPQRSTUVWXYZ234567");
    assert_eq!(CROCKFORD_ALPHABET, "0123456789ABCDEFGHJKMNPQRSTVWXYZ");
    let mut rfc = String::new();
    let mut unpadded = String::new();
    let mut crockford = String::new();
    for value in 0..32u8 {
        rfc.push_str(symbol_for(RFC4648Base32, value));
        unpadded.push_str(symbol_for(UnpaddedRFC4648Base32, value));
        crockford.push_str(symbol_for(CrockfordBase32, value));
    }
    assert_eq!(rfc, RFC4648_ALPHABET);
    assert_eq!(unpadded, RFC4648_ALPHABET);
    assert_eq!(crockford, CROCKFORD_ALPHABET);
}

#[test]
fn lookup_inverts_rendering() {
    for variant in [RFC4648Base32, CrockfordBase32, UnpaddedRFC4648Base32] {
        for value in 0..32u8 {
            let symbol = symbol_for(variant, value).as_bytes()[0];
            assert_eq!(value_for(variant, symbol), Ok(value));
            assert_eq!(value_for(variant, symbol.to_ascii_lowercase()), Ok(value));
        }
    }
}

#[test]
fn lookup_of_every_byte_agrees_with_the_alphabet() {
    for byte in 0..=255u8 {
        let upper = byte.to_ascii_uppercase();
        let in_rfc = RFC4648_ALPHABET.bytes().position(|s| s == upper).map(|at| at as u8);
        let rfc = if upper == b'=' { Some(0) } else { in_rfc };
        assert_eq!(value_for(RFC4648Base32, byte), rfc.ok_or(DecodeError::InvalidCharacter));
        assert_eq!(value_for(UnpaddedRFC4648Base32, byte), rfc.ok_or(DecodeError::InvalidCharacter));
        let in_crockford = CROCKFORD_ALPHABET.bytes().position(|s| s == upper).map(|at| at as u8);
        let crockford = match upper {
            b'I' | b'L' => Some(1),
            b'O' => Some(0),
            _ => in_crockford,
        };
        assert_eq!(value_for(CrockfordBase32, byte), crockford.ok_or(DecodeError::InvalidCharacter));
    }
}

#[test]
fn lookup_edges() {
    assert_eq!(value_for(RFC4648Base32, b'A'), Ok(0));
    assert_eq!(value_for(RFC4648Base32, b'Z'), Ok(25));
    assert_eq!(value_for(RFC4648Base32, b'2'), Ok(26));
    assert_eq!(value_for(RFC4648Base32, b'7'), Ok(31));
    assert_eq!(value_for(RFC4648Base32, b'='), Ok(0));
    assert_eq!(value_for(RFC4648Base32, b'/'), Err(DecodeError::InvalidCharacter));
    assert_eq!(value_for(RFC4648Base32, b'['), Err(DecodeError::InvalidCharacter));
    assert_eq!(value_for(RFC4648Base32, 0), Err(DecodeError::InvalidCharacter));
    assert_eq!(value_for(RFC4648Base32, 255), Err(DecodeError::InvalidCharacter));
    assert_eq!(value_for(CrockfordBase32, b'0'), Ok(0));
    assert_eq!(value_for(CrockfordBase32, b'z'), Ok(31));
    assert_eq!(value_for(CrockfordBase32, b'i'), Ok(1));
    assert_eq!(value_for(CrockfordBase32, b'l'), Ok(1));
    assert_eq!(value_for(CrockfordBase32, b'o'), Ok(0));
    assert_eq!(value_for(CrockfordBase32, b'U'), Err(DecodeError::InvalidCharacter));
    assert_eq!(value_for(CrockfordBase32, b'='), Err(DecodeError::InvalidCharacter));
    assert_eq!(value_for(CrockfordBase32, b'{'), Err(DecodeError::InvalidCharacter));
}

#[test]
fn inverse_tables_cover_zero_to_capital_z() {
    assert_eq!(RFC4648_INVERSE.len(), (b'Z' - b'0' + 1) as usize);
    assert_eq!(CROCKFORD_INVERSE.len(), (b'Z' - b'0' + 1) as usize);
    assert_eq!(INVALID, 255);
    assert_eq!(RFC4648_INVERSE[(b'=' - b'0') as usize], 0);
    assert_eq!(CROCKFORD_INVERSE[(b'=' - b'0') as usize], INVALID);
    assert_eq!(CROCKFORD_INVERSE[(b'U' - b'0') as usize], INVALID);
}

#[test]
fn split_group_cuts_most_significant_bits_first() {
    assert_eq!(split_group(&[0xF8, 0x3E, 0x0F, 0x83, 0xE0]), [31, 0, 31, 0, 31, 0, 31, 0]);
    assert_eq!(split_group(&[0x07, 0xC1, 0xF0, 0x7C, 0x1F]), [0, 31, 0, 31, 0, 31, 0, 31]);
    assert_eq!(split_group(&[0x00, 0x44, 0x32, 0x14, 0xC7]), [0, 1, 2, 3, 4, 5, 6, 7]);
    assert_eq!(split_group(&[0xFF, 0, 0, 0, 0]), [31, 28, 0, 0, 0, 0, 0, 0]);
    assert_eq!(split_group(&[0, 0, 0, 0, 0x01]), [0, 0, 0, 0, 0, 0, 0, 1]);
}

#[test]
fn join_group_undoes_split_group() {
    assert_eq!(join_group(&[0, 1, 2, 3, 4, 5, 6, 7]), [0x00, 0x44, 0x32, 0x14, 0xC7]);
    assert_eq!(join_group(&[31, 0, 31, 0, 31, 0, 31, 0]), [0xF8, 0x3E, 0x0F, 0x83, 0xE0]);
    let mut seed: u32 = 7;
    for _ in 0..1000 {
        let mut octets = [0u8; 5];
        for octet in octets.iter_mut() {
            seed = seed.wrapping_mul(1_664_525).wrapping_add(1_013_904_223);
            *octet = (seed >> 24) as u8;
        }
        let quintets = split_group(&octets);
        assert!(quintets.iter().all(|&q| q < 32));
        assert_eq!(join_group(&quintets), octets);
    }
}

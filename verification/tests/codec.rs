use base32::Base32Type::{CrockfordBase32, RFC4648Base32, UnpaddedRFC4648Base32};
use base32::{decode, encode, try_decode, DecodeError};

#[test]
fn masks_crockford() {
    assert_eq!(encode(CrockfordBase32, &[0xF8, 0x3E, 0x0F, 0x83, 0xE0]), "Z0Z0Z0Z0");
    assert_eq!(encode(CrockfordBase32, &[0x07, 0xC1, 0xF0, 0x7C, 0x1F]), "0Z0Z0Z0Z");
    assert_eq!(decode(CrockfordBase32, "Z0Z0Z0Z0").unwrap(), [0xF8, 0x3E, 0x0F, 0x83, 0xE0]);
    assert_eq!(decode(CrockfordBase32, "0Z0Z0Z0Z").unwrap(), [0x07, 0xC1, 0xF0, 0x7C, 0x1F]);
}

#[test]
fn masks_rfc4648() {
    assert_eq!(encode(RFC4648Base32, &[0xF8, 0x3E, 0x7F, 0x83, 0xE7]), "7A7H7A7H");
    assert_eq!(encode(RFC4648Base32, &[0x77, 0xC1, 0xF7, 0x7C, 0x1F]), "O7A7O7A7");
    assert_eq!(decode(RFC4648Base32, "7A7H7A7H").unwrap(), [0xF8, 0x3E, 0x7F, 0x83, 0xE7]);
    assert_eq!(decode(RFC4648Base32, "O7A7O7A7").unwrap(), [0x77, 0xC1, 0xF7, 0x7C, 0x1F]);
    assert_eq!(encode(RFC4648Base32, &[0xF8, 0x3E, 0x7F, 0x83]), "7A7H7AY=");
}

#[test]
fn masks_unpadded_rfc4648() {
    assert_eq!(encode(UnpaddedRFC4648Base32, &[0xF8, 0x3E, 0x7F, 0x83, 0xE7]), "7A7H7A7H");
    assert_eq!(encode(UnpaddedRFC4648Base32, &[0x77, 0xC1, 0xF7, 0x7C, 0x1F]), "O7A7O7A7");
    assert_eq!(decode(UnpaddedRFC4648Base32, "7A7H7A7H").unwrap(), [0xF8, 0x3E, 0x7F, 0x83, 0xE7]);
    assert_eq!(decode(UnpaddedRFC4648Base32, "O7A7O7A7").unwrap(), [0x77, 0xC1, 0xF7, 0x7C, 0x1F]);
    assert_eq!(encode(UnpaddedRFC4648Base32, &[0xF8, 0x3E, 0x7F, 0x83]), "7A7H7AY");
}

#[test]
fn padding() {
    let num_padding = [0, 6, 4, 3, 1];
    for i in 1..6 {
        println!("Checking padding for length == {}", i);
        let encoded = encode(RFC4648Base32, (0..(i as u8)).collect::<Vec<u8>>().as_slice());
        assert_eq!(encoded.len(), 8);
        for j in 0..(num_padding[i % 5]) {
            println!("Making sure index {} is padding", encoded.len() - j - 1);
            assert_eq!(encoded.as_bytes()[encoded.len() - j - 1], b'=');
        }
        for j in 0..(8 - num_padding[i % 5]) {
            println!("Making sure index {} is not padding", j);
            assert!(encoded.as_bytes()[j] != b'=');
        }
    }
}

#[test]
#[allow(non_snake_case)]
fn base32_iIlL1_oO0() {
    assert_eq!(decode(CrockfordBase32, "IiLlOo"), decode(CrockfordBase32, "111100"));
}

#[test]
fn invalid_chars_crockford() {
    assert_eq!(decode(CrockfordBase32, ","), None)
}

#[test]
fn invalid_chars_rfc4648() {
    assert_eq!(decode(RFC4648Base32, ","), None)
}

#[test]
fn invalid_chars_unpadded_rfc4648() {
    assert_eq!(decode(UnpaddedRFC4648Base32, ","), None)
}

#[test]
fn empty_input_has_empty_text() {
    for variant in [RFC4648Base32, CrockfordBase32, UnpaddedRFC4648Base32] {
        assert_eq!(encode(variant, &[]), "");
        assert_eq!(decode(variant, ""), Some(vec![]));
    }
}

#[test]
fn rfc4648_vectors_padded() {
    assert_eq!(encode(RFC4648Base32, b"f"), "MY======");
    assert_eq!(encode(RFC4648Base32, b"fo"), "MZXQ====");
    assert_eq!(encode(RFC4648Base32, b"foo"), "MZXW6===");
    assert_eq!(encode(RFC4648Base32, b"foob"), "MZXW6YQ=");
    assert_eq!(encode(RFC4648Base32, b"fooba"), "MZXW6YTB");
    assert_eq!(encode(RFC4648Base32, b"foobar"), "MZXW6YTBOI======");
    assert_eq!(decode(RFC4648Base32, "MY======"), Some(b"f".to_vec()));
    assert_eq!(decode(RFC4648Base32, "MZXQ===="), Some(b"fo".to_vec()));
    assert_eq!(decode(RFC4648Base32, "MZXW6==="), Some(b"foo".to_vec()));
    assert_eq!(decode(RFC4648Base32, "MZXW6YQ="), Some(b"foob".to_vec()));
    assert_eq!(decode(RFC4648Base32, "MZXW6YTB"), Some(b"fooba".to_vec()));
    assert_eq!(decode(RFC4648Base32, "MZXW6YTBOI======"), Some(b"foobar".to_vec()));
}

#[test]
fn rfc4648_vectors_unpadded() {
    assert_eq!(encode(UnpaddedRFC4648Base32, b"f"), "MY");
    assert_eq!(encode(UnpaddedRFC4648Base32, b"fo"), "MZXQ");
    assert_eq!(encode(UnpaddedRFC4648Base32, b"foo"), "MZXW6");
    assert_eq!(encode(UnpaddedRFC4648Base32, b"foob"), "MZXW6YQ");
    assert_eq!(encode(UnpaddedRFC4648Base32, b"foobar"), "MZXW6YTBOI");
    assert_eq!(decode(UnpaddedRFC4648Base32, "MZXW6YTBOI"), Some(b"foobar".to_vec()));
}

#[test]
fn crockford_vectors() {
    assert_eq!(encode(CrockfordBase32, b"f"), "CR");
    assert_eq!(encode(CrockfordBase32, b"foobar"), "CSQPYRK1E8");
    assert_eq!(encode(CrockfordBase32, &[0xFF]), "ZW");
    assert_eq!(encode(CrockfordBase32, &[0x00]), "00");
    assert_eq!(decode(CrockfordBase32, "CSQPYRK1E8"), Some(b"foobar".to_vec()));
}

#[test]
fn text_length_follows_input_length() {
    let unpadded = [0usize, 2, 4, 5, 7, 8, 10, 12, 13, 15, 16];
    let padded = [0usize, 8, 8, 8, 8, 8, 16, 16, 16, 16, 16];
    for n in 0..11 {
        let data = vec![0xA5u8; n];
        assert_eq!(encode(UnpaddedRFC4648Base32, &data).len(), unpadded[n]);
        assert_eq!(encode(CrockfordBase32, &data).len(), unpadded[n]);
        assert_eq!(encode(RFC4648Base32, &data).len(), padded[n]);
    }
}

#[test]
fn decoded_length_follows_text_length() {
    let lengths = [0usize, 0, 1, 1, 2, 3, 3, 4, 5, 5, 6, 6, 7, 8, 8, 9, 10];
    for n in 0..17 {
        let text = "A".repeat(n);
        assert_eq!(decode(UnpaddedRFC4648Base32, &text), Some(vec![0u8; lengths[n]]));
    }
}

#[test]
fn round_trip_of_every_length() {
    let mut seed: u32 = 0x1234_5678;
    for n in 0..64 {
        let mut data = Vec::new();
        for _ in 0..n {
            seed = seed.wrapping_mul(1_664_525).wrapping_add(1_013_904_223);
            data.push((seed >> 24) as u8);
        }
        for variant in [RFC4648Base32, CrockfordBase32, UnpaddedRFC4648Base32] {
            assert_eq!(decode(variant, &encode(variant, &data)), Some(data.clone()));
        }
    }
}

#[test]
fn round_trip_of_every_byte_value() {
    for b in 0..=255u8 {
        for variant in [RFC4648Base32, CrockfordBase32, UnpaddedRFC4648Base32] {
            for n in 1..6 {
                let data = vec![b; n];
                assert_eq!(decode(variant, &encode(variant, &data)), Some(data));
            }
        }
    }
}

#[test]
fn case_makes_no_difference() {
    assert_eq!(decode(CrockfordBase32, "csqpyrk1e8"), Some(b"foobar".to_vec()));
    assert_eq!(decode(CrockfordBase32, "CsQpYrK1e8"), Some(b"foobar".to_vec()));
    assert_eq!(decode(RFC4648Base32, "mzxw6ytboi======"), Some(b"foobar".to_vec()));
    assert_eq!(decode(UnpaddedRFC4648Base32, "mzxw6ytboi"), Some(b"foobar".to_vec()));
    let text = encode(CrockfordBase32, &[0xDE, 0xAD, 0xBE, 0xEF, 0x01, 0x23, 0x45]);
    assert_eq!(
        decode(CrockfordBase32, &text.to_ascii_lowercase()),
        decode(CrockfordBase32, &text)
    );
}

#[test]
fn look_alike_letters_read_as_digits() {
    assert_eq!(decode(CrockfordBase32, "I"), decode(CrockfordBase32, "1"));
    assert_eq!(decode(CrockfordBase32, "L"), decode(CrockfordBase32, "1"));
    assert_eq!(decode(CrockfordBase32, "O"), decode(CrockfordBase32, "0"));
    assert_eq!(decode(CrockfordBase32, "IiLlOo11"), Some(vec![0x08, 0x42, 0x10, 0x00, 0x21]));
    assert_eq!(decode(CrockfordBase32, "11110011"), Some(vec![0x08, 0x42, 0x10, 0x00, 0x21]));
}

#[test]
fn letters_outside_the_alphabet_are_refused() {
    assert_eq!(decode(CrockfordBase32, "U"), None);
    assert_eq!(decode(CrockfordBase32, "u"), None);
    assert_eq!(decode(CrockfordBase32, "0000000U"), None);
    assert_eq!(decode(RFC4648Base32, "0"), None);
    assert_eq!(decode(RFC4648Base32, "1"), None);
    assert_eq!(decode(RFC4648Base32, "8"), None);
    assert_eq!(decode(RFC4648Base32, "9"), None);
    assert_eq!(decode(RFC4648Base32, "AAAAAAA "), None);
    assert_eq!(decode(RFC4648Base32, "AAAA\nAAA"), None);
    assert_eq!(decode(RFC4648Base32, "["), None);
    assert_eq!(decode(RFC4648Base32, "{"), None);
    assert_eq!(decode(RFC4648Base32, "/"), None);
    assert_eq!(decode(RFC4648Base32, "@"), None);
    assert_eq!(decode(CrockfordBase32, ":"), None);
}

#[test]
fn an_invalid_character_anywhere_refuses_the_text() {
    assert_eq!(decode(RFC4648Base32, "MZXW6YTBOI,====="), None);
    assert_eq!(decode(RFC4648Base32, ",ZXW6YTBOI======"), None);
    assert_eq!(decode(UnpaddedRFC4648Base32, "MZXW6YTBO,"), None);
    assert_eq!(decode(CrockfordBase32, "CSQPYRK1E8,"), None);
}

#[test]
fn padding_symbol_under_each_flavour() {
    assert_eq!(decode(CrockfordBase32, "CR======"), None);
    assert_eq!(decode(CrockfordBase32, "="), None);
    assert_eq!(decode(UnpaddedRFC4648Base32, "MY======"), Some(b"f".to_vec()));
    assert_eq!(decode(RFC4648Base32, "MY"), Some(b"f".to_vec()));
    assert_eq!(decode(RFC4648Base32, "="), Some(vec![]));
    assert_eq!(decode(RFC4648Base32, "========"), Some(vec![0]));
    assert_eq!(decode(RFC4648Base32, "M=XW6==="), Some(vec![0x60, 0x2F, 0x6F]));
}

#[test]
fn at_most_six_padding_symbols_are_set_aside() {
    assert_eq!(decode(RFC4648Base32, "M======="), Some(vec![0x60]));
    assert_eq!(decode(RFC4648Base32, "MY======"), Some(vec![0x66]));
    assert_eq!(decode(RFC4648Base32, "MY=========="), Some(vec![0x66, 0, 0]));
}

#[test]
fn slack_bits_and_odd_lengths_are_let_through() {
    assert_eq!(decode(RFC4648Base32, "M"), Some(vec![]));
    assert_eq!(decode(RFC4648Base32, "MZ"), Some(vec![0x66]));
    assert_eq!(decode(RFC4648Base32, "MY"), Some(vec![0x66]));
    assert_eq!(decode(RFC4648Base32, "MZX"), Some(vec![0x66]));
    assert_eq!(decode(CrockfordBase32, "ZZ"), Some(vec![0xFF]));
    assert_eq!(decode(CrockfordBase32, "ZZZ"), Some(vec![0xFF]));
    assert_eq!(decode(CrockfordBase32, "ZZZZZZ"), Some(vec![0xFF, 0xFF, 0xFF]));
}

#[test]
fn text_outside_ascii_is_refused() {
    assert_eq!(decode(RFC4648Base32, "MZXW6YTB\u{e9}"), None);
    assert_eq!(decode(CrockfordBase32, "\u{4e2d}"), None);
    assert_eq!(decode(UnpaddedRFC4648Base32, "A\u{80}"), None);
}

#[test]
fn try_decode_gives_the_bytes() {
    assert_eq!(try_decode(RFC4648Base32, "7A7H7A7H"), Ok(vec![0xF8, 0x3E, 0x7F, 0x83, 0xE7]));
    assert_eq!(try_decode(CrockfordBase32, "Z0Z0Z0Z0"), Ok(vec![0xF8, 0x3E, 0x0F, 0x83, 0xE0]));
    assert_eq!(try_decode(UnpaddedRFC4648Base32, ""), Ok(vec![]));
}

#[test]
fn try_decode_names_the_reason() {
    for variant in [RFC4648Base32, CrockfordBase32, UnpaddedRFC4648Base32] {
        assert_eq!(try_decode(variant, ","), Err(DecodeError::InvalidCharacter));
        assert_eq!(try_decode(variant, "AA AA"), Err(DecodeError::InvalidCharacter));
        assert_eq!(try_decode(variant, "\u{e9}"), Err(DecodeError::NonAsciiInput));
        assert_eq!(try_decode(variant, "AAAA\u{e9}"), Err(DecodeError::NonAsciiInput));
    }
    assert_eq!(try_decode(CrockfordBase32, "U"), Err(DecodeError::InvalidCharacter));
    assert_eq!(try_decode(RFC4648Base32, "1"), Err(DecodeError::InvalidCharacter));
}

#[test]
fn outside_ascii_is_reported_before_an_invalid_character() {
    assert_eq!(try_decode(RFC4648Base32, ",\u{e9}"), Err(DecodeError::NonAsciiInput));
    assert_eq!(try_decode(CrockfordBase32, "\u{e9},"), Err(DecodeError::NonAsciiInput));
}

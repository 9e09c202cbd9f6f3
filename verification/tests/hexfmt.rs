use proof_tool::hexfmt::{decode_half_hash, decode_hash, decode_hex};
use proof_tool::{hex, FormatError};

#[test]
fn hex_of_nothing_is_the_prefix() {
    assert_eq!(hex(&[]), "0x");
}

#[test]
fn hex_writes_two_lower_case_digits_a_byte() {
    assert_eq!(hex(&[0x00, 0xff, 0x1a, 0xb0, 0x09]), "0x00ff1ab009");
    assert_eq!(
        hex(&[0x01, 0x23, 0x45, 0x67, 0x89, 0xab, 0xcd, 0xef]),
        "0x0123456789abcdef"
    );
}

#[test]
fn hex_agrees_with_the_hex_crate() {
    let all: Vec<u8> = (0..=255u8).collect();
    assert_eq!(hex(&all), format!("0x{}", hex::encode(&all)));
    for len in [1usize, 2, 16, 32, 33] {
        let data: Vec<u8> = (0..len).map(|i| (i * 37 + 11) as u8).collect();
        assert_eq!(hex(&data), format!("0x{}", hex::encode(&data)));
    }
}

#[test]
fn decode_hex_reads_what_hex_writes() {
    let all: Vec<u8> = (0..=255u8).collect();
    assert_eq!(decode_hex(&hex(&all)), Ok(all));
    assert_eq!(decode_hex("0x"), Ok(vec![]));
    assert_eq!(decode_hex("0x00ff1a"), Ok(vec![0x00, 0xff, 0x1a]));
}

#[test]
fn decode_hex_reads_upper_case_digits() {
    assert_eq!(decode_hex("0xABCDEF"), Ok(vec![0xab, 0xcd, 0xef]));
    assert_eq!(decode_hex("0xaBcDeF09"), Ok(vec![0xab, 0xcd, 0xef, 0x09]));
}

#[test]
fn decode_hex_agrees_with_the_hex_crate() {
    for text in ["", "00", "0123456789abcdefABCDEF", "ffFF00"] {
        assert_eq!(
            decode_hex(&format!("0x{}", text)).ok(),
            hex::decode(text).ok()
        );
    }
}

#[test]
fn decode_hex_wants_the_prefix() {
    for text in ["", "0", "x", "ab", "00ff", "0X12", "1x12", " 0x12", "x012"] {
        assert_eq!(decode_hex(text), Err(FormatError::MissingPrefix));
    }
}

#[test]
fn decode_hex_wants_an_even_number_of_digits() {
    for text in ["0x1", "0x123", "0xabcde", "0xg", "0x12z"] {
        assert_eq!(decode_hex(text), Err(FormatError::OddLength));
    }
}

#[test]
fn decode_hex_wants_hex_digits() {
    for text in [
        "0xzz", "0x1g", "0xg1", "0x12 4", "0x0x", "0x-1", "0x12/3", "0x12:3", "0x12@3",
        "0x12G3", "0x12`3", "0x12g3",
    ] {
        assert_eq!(decode_hex(text), Err(FormatError::InvalidDigit));
    }
}

#[test]
fn decode_hex_on_text_beyond_ascii() {
    assert_eq!(decode_hex("\u{e9}"), Err(FormatError::MissingPrefix));
    assert_eq!(decode_hex("0\u{e9}12"), Err(FormatError::MissingPrefix));
    assert_eq!(decode_hex("\u{e9}x12"), Err(FormatError::MissingPrefix));
    assert_eq!(decode_hex("0x\u{e9}"), Err(FormatError::OddLength));
    assert_eq!(decode_hex("0x1\u{4e2d}2"), Err(FormatError::OddLength));
    assert_eq!(decode_hex("0x\u{e9}\u{e9}"), Err(FormatError::InvalidDigit));
    assert_eq!(decode_hex("0x12\u{4e2d}4"), Err(FormatError::InvalidDigit));
}

#[test]
fn decode_hash_wants_32_bytes() {
    let digest: Vec<u8> = (0..32u8).collect();
    let mut expected = [0u8; 32];
    expected.copy_from_slice(&digest);
    assert_eq!(decode_hash(&hex(&digest)), Ok(expected));
    assert_eq!(decode_hash(&hex(&digest[..31])), Err(FormatError::WrongLength));
    assert_eq!(decode_hash(&hex(&digest[..16])), Err(FormatError::WrongLength));
    assert_eq!(decode_hash("0x"), Err(FormatError::WrongLength));
    let longer: Vec<u8> = (0..33u8).collect();
    assert_eq!(decode_hash(&hex(&longer)), Err(FormatError::WrongLength));
}

#[test]
fn decode_hash_reports_the_text_before_the_length() {
    assert_eq!(decode_hash("ab"), Err(FormatError::MissingPrefix));
    assert_eq!(decode_hash("0xabc"), Err(FormatError::OddLength));
    assert_eq!(decode_hash("0xzz"), Err(FormatError::InvalidDigit));
}

#[test]
fn decode_half_hash_wants_16_bytes() {
    let node: Vec<u8> = (100..116u8).collect();
    let mut expected = [0u8; 16];
    expected.copy_from_slice(&node);
    assert_eq!(decode_half_hash(&hex(&node)), Ok(expected));
    assert_eq!(
        decode_half_hash("0x000102030405060708090A0B0C0D0E0F"),
        Ok([0, 1, 2, 3, 4, 5, 6, 7, 8, 9, 10, 11, 12, 13, 14, 15])
    );
    assert_eq!(decode_half_hash(&hex(&node[..15])), Err(FormatError::WrongLength));
    let full: Vec<u8> = (0..32u8).collect();
    assert_eq!(decode_half_hash(&hex(&full)), Err(FormatError::WrongLength));
    assert_eq!(decode_half_hash("0x0g"), Err(FormatError::InvalidDigit));
    assert_eq!(decode_half_hash("0x0"), Err(FormatError::OddLength));
    assert_eq!(decode_half_hash("00"), Err(FormatError::MissingPrefix));
}

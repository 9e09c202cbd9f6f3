use crate::hashing::{self, HalfHash};
use vstd::prelude::*;
use vstd::string::*;

verus! {

/// Why a text is not the hex form of bytes.
#[derive(Copy, Clone, PartialEq, Eq, Debug, Structural)]
pub enum FormatError {
    /// The text does not begin with `0x`.
    MissingPrefix,
    /// The number of characters after the prefix is odd.
    OddLength,
    /// A character after the prefix is not a hex digit.
    InvalidDigit,
    /// The text stands for another number of bytes than the value has.
    WrongLength,
}

/// The lower-case hex digit for a value under sixteen.
pub open spec fn hex_digit(n: u8) -> char {
    if n < 10 {
        (48 + n) as char
    } else {
        (87 + n) as char
    }
}

/// The value of a hex digit of either case, and `None` for any other character.
pub open spec fn digit_value(c: char) -> Option<u8> {
    if '0' <= c <= '9' {
        Some((c as int - 48) as u8)
    } else if 'a' <= c <= 'f' {
        Some((c as int - 87) as u8)
    } else if 'A' <= c <= 'F' {
        Some((c as int - 55) as u8)
    } else {
        None
    }
}

/// The digits of `bytes`: two for each byte, the high four bits first.
pub open spec fn hex_digits(bytes: Seq<u8>) -> Seq<char> {
    Seq::new(
        2 * bytes.len(),
        |i: int|
            if i % 2 == 0 {
                hex_digit(bytes[i / 2] / 16)
            } else {
                hex_digit(bytes[i / 2] % 16)
            },
    )
}

/// The hex form of `bytes`: `0x`, then the digits in lower case.
pub open spec fn hex_text(bytes: Seq<u8>) -> Seq<char> {
    seq!['0', 'x'] + hex_digits(bytes)
}

/// Whether `text` begins with `0x`.
pub open spec fn has_prefix(text: Seq<char>) -> bool {
    text.len() >= 2 && text[0] == '0' && text[1] == 'x'
}

/// The bytes that `text` is the hex form of. The text has to begin with `0x` and go on
/// with an even number of hex digits of either case.
pub open spec fn parse_hex(text: Seq<char>) -> Result<Seq<u8>, FormatError> {
    if !has_prefix(text) {
        Err(FormatError::MissingPrefix)
    } else if (text.len() - 2) % 2 != 0 {
        Err(FormatError::OddLength)
    } else if exists|i: int| 2 <= i < text.len() && digit_value(#[trigger] text[i]) is None {
        Err(FormatError::InvalidDigit)
    } else {
        Ok(
            Seq::new(
                ((text.len() - 2) / 2) as nat,
                |k: int|
                    (digit_value(text[2 + 2 * k]).unwrap() * 16 + digit_value(
                        text[3 + 2 * k],
                    ).unwrap()) as u8,
            ),
        )
    }
}

/// The bytes that `text` is the hex form of, where there have to be `n` of them.
pub open spec fn parse_sized(text: Seq<char>, n: nat) -> Result<Seq<u8>, FormatError> {
    match parse_hex(text) {
        Ok(bytes) => if bytes.len() == n {
            Ok(bytes)
        } else {
            Err(FormatError::WrongLength)
        },
        Err(e) => Err(e),
    }
}

/// The one-character text of a hex digit.
fn digit_str(n: u8) -> (s: &'static str)
    requires
        n < 16,
    ensures
        s@ == seq![hex_digit(n)],
{
    proof {
        reveal_strlit("0");
        reveal_strlit("1");
        reveal_strlit("2");
        reveal_strlit("3");
        reveal_strlit("4");
        reveal_strlit("5");
        reveal_strlit("6");
        reveal_strlit("7");
        reveal_strlit("8");
        reveal_strlit("9");
        reveal_strlit("a");
        reveal_strlit("b");
        reveal_strlit("c");
        reveal_strlit("d");
        reveal_strlit("e");
        reveal_strlit("f");
    }
    let s = match n {
        0 => "0",
        1 => "1",
        2 => "2",
        3 => "3",
        4 => "4",
        5 => "5",
        6 => "6",
        7 => "7",
        8 => "8",
        9 => "9",
        10 => "a",
        11 => "b",
        12 => "c",
        13 => "d",
        14 => "e",
        _ => "f",
    };
    assert(s@ =~= seq![hex_digit(n)]);
    s
}

/// The hex form of `hash`: `0x`, then two lower-case digits for each byte.
pub fn hex(hash: &[u8]) -> (text: String)
    ensures
        text@ == hex_text(hash@),
{
    let mut text = String::new();
    proof {
        reveal_strlit("0x");
    }
    text.append("0x");
    let mut i: usize = 0;
    while i < hash.len()
        invariant
            i <= hash.len(),
            text@ == seq!['0', 'x'] + hex_digits(hash@.take(i as int)),
        decreases hash.len() - i,
    {
        let byte = hash[i];
        text.append(digit_str(byte / 16));
        text.append(digit_str(byte % 16));
        proof {
            assert(hex_digits(hash@.take(i + 1)) =~= hex_digits(hash@.take(i as int)) + seq![
                hex_digit(byte / 16),
            ] + seq![hex_digit(byte % 16)]);
        }
        i += 1;
    }
    assert(hash@.take(hash.len() as int) =~= hash@);
    text
}

/// The text whose characters have the given codes.
pub open spec fn ascii_text(codes: Seq<u8>) -> Seq<char> {
    Seq::new(codes.len(), |i: int| codes[i] as char)
}

/// The value of the hex digit with character code `code`.
fn digit_of(code: u8) -> (v: Option<u8>)
    ensures
        v == digit_value(code as char),
{
    if code >= 48 && code <= 57 {
        Some(code - 48)
    } else if code >= 97 && code <= 102 {
        Some(code - 87)
    } else if code >= 65 && code <= 70 {
        Some(code - 55)
    } else {
        None
    }
}

/// The bytes that a text of the given character codes is the hex form of.
fn decode_codes(codes: &[u8]) -> (res: Result<Vec<u8>, FormatError>)
    ensures
        match res {
            Ok(bytes) => parse_hex(ascii_text(codes@)) == Ok::<Seq<u8>, FormatError>(bytes@),
            Err(e) => parse_hex(ascii_text(codes@)) == Err::<Seq<u8>, FormatError>(e),
        },
{
    let ghost text = ascii_text(codes@);
    let n = codes.len();
    if n < 2 || codes[0] != 48 || codes[1] != 120 {
        return Err(FormatError::MissingPrefix);
    }
    assert(has_prefix(text));
    if (n - 2) % 2 != 0 {
        return Err(FormatError::OddLength);
    }
    let count = (n - 2) / 2;
    let mut bytes: Vec<u8> = Vec::new();
    let mut k: usize = 0;
    while k < count
        invariant
            k <= count,
            n == codes.len(),
            n == 2 + 2 * count,
            text == ascii_text(codes@),
            has_prefix(text),
            bytes@.len() == k,
            forall|i: int| 2 <= i < 2 + 2 * k ==> digit_value(#[trigger] text[i]) is Some,
            forall|j: int|
                0 <= j < k ==> bytes@[j] == (digit_value(text[2 + 2 * j]).unwrap() * 16
                    + digit_value(text[3 + 2 * j]).unwrap()) as u8,
        decreases count - k,
    {
        let high = digit_of(codes[2 + 2 * k]);
        let low = digit_of(codes[3 + 2 * k]);
        assert(text[2 + 2 * k] == codes@[2 + 2 * k] as char);
        assert(text[3 + 2 * k] == codes@[3 + 2 * k] as char);
        match (high, low) {
            (Some(h), Some(l)) => {
                bytes.push(h * 16 + l);
            },
            _ => {
                proof {
                    let bad = if high is None {
                        2 + 2 * k
                    } else {
                        3 + 2 * k
                    };
                    assert(2 <= bad < text.len() && digit_value(text[bad]) is None);
                }
                return Err(FormatError::InvalidDigit);
            },
        }
        k += 1;
    }
    assert(bytes@ =~= parse_hex(text).unwrap());
    Ok(bytes)
}

/// The bytes that `text` is the hex form of, in the form that `hex` writes or with
/// digits in upper case. Fails on a text without the prefix `0x`, on an odd number of
/// characters after it, and on a character that is no hex digit, in this order.
pub fn decode_hex(text: &str) -> (res: Result<Vec<u8>, FormatError>)
    ensures
        match res {
            Ok(bytes) => parse_hex(text@) == Ok::<Seq<u8>, FormatError>(bytes@),
            Err(e) => parse_hex(text@) == Err::<Seq<u8>, FormatError>(e),
        },
{
    if text.is_ascii() {
        let codes = text.as_bytes();
        proof {
            is_ascii_spec_bytes(text);
            assert(ascii_text(codes@) =~= text@);
        }
        decode_codes(codes)
    } else {
        let ghost bad = choose|i: int|
            0 <= i < text@.len() && !('\0' <= #[trigger] text@[i] <= '\u{7f}');
        assert(digit_value(text@[bad]) is None);
        let n = text.unicode_len();
        if n < 2 || text.get_char(0) != '0' || text.get_char(1) != 'x' {
            Err(FormatError::MissingPrefix)
        } else if (n - 2) % 2 != 0 {
            Err(FormatError::OddLength)
        } else {
            Err(FormatError::InvalidDigit)
        }
    }
}

/// The digest that `text` is the hex form of. Fails as `decode_hex` does, and with
/// `WrongLength` on a text that stands for more or fewer than 32 bytes.
pub fn decode_hash(text: &str) -> (res: Result<hashing::Hash, FormatError>)
    ensures
        match res {
            Ok(h) => parse_sized(text@, 32) == Ok::<Seq<u8>, FormatError>(h@),
            Err(e) => parse_sized(text@, 32) == Err::<Seq<u8>, FormatError>(e),
        },
{
    match decode_hex(text) {
        Ok(bytes) => {
            if bytes.len() != 32 {
                return Err(FormatError::WrongLength);
            }
            let mut h: hashing::Hash = [0u8; 32];
            let mut i: usize = 0;
            while i < 32
                invariant
                    i <= 32,
                    bytes@.len() == 32,
                    forall|j: int| 0 <= j < i ==> h@[j] == bytes@[j],
                decreases 32 - i,
            {
                h[i] = bytes[i];
                i += 1;
            }
            assert(h@ =~= bytes@);
            Ok(h)
        },
        Err(e) => Err(e),
    }
}

/// The tree node that `text` is the hex form of. Fails as `decode_hex` does, and with
/// `WrongLength` on a text that stands for more or fewer than 16 bytes.
pub fn decode_half_hash(text: &str) -> (res: Result<HalfHash, FormatError>)
    ensures
        match res {
            Ok(h) => parse_sized(text@, 16) == Ok::<Seq<u8>, FormatError>(h@),
            Err(e) => parse_sized(text@, 16) == Err::<Seq<u8>, FormatError>(e),
        },
{
    match decode_hex(text) {
        Ok(bytes) => {
            if bytes.len() != 16 {
                return Err(FormatError::WrongLength);
            }
            let mut h: HalfHash = [0u8; 16];
            let mut i: usize = 0;
            while i < 16
                invariant
                    i <= 16,
                    bytes@.len() == 16,
                    forall|j: int| 0 <= j < i ==> h@[j] == bytes@[j],
                decreases 16 - i,
            {
                h[i] = bytes[i];
                i += 1;
            }
            assert(h@ =~= bytes@);
            Ok(h)
        },
        Err(e) => Err(e),
    }
}

/// A hex digit written is the digit read.
pub proof fn lemma_digit_round_trip(n: u8)
    requires
        n < 16,
    ensures
        digit_value(hex_digit(n)) == Some(n),
{
}

/// Reading the hex form of bytes gives the bytes back.
pub proof fn lemma_hex_round_trip(bytes: Seq<u8>)
    ensures
        parse_hex(hex_text(bytes)) == Ok::<Seq<u8>, FormatError>(bytes),
{
    let text = hex_text(bytes);
    assert(has_prefix(text));
    assert forall|i: int| 2 <= i < text.len() implies digit_value(#[trigger] text[i]) is Some by {
        let b = bytes[(i - 2) / 2];
        lemma_digit_round_trip(b / 16);
        lemma_digit_round_trip(b % 16);
        assert(text[i] == hex_digits(bytes)[i - 2]);
    }
    let read = parse_hex(text).unwrap();
    assert forall|k: int| 0 <= k < bytes.len() implies read[k] == bytes[k] by {
        let b = bytes[k];
        lemma_digit_round_trip(b / 16);
        lemma_digit_round_trip(b % 16);
        assert(text[2 + 2 * k] == hex_digits(bytes)[2 * k]);
        assert(text[3 + 2 * k] == hex_digits(bytes)[2 * k + 1]);
    }
    assert(read =~= bytes);
}

} // verus!

//! Base 16 (RFC 4648 section 8): bytes as hexadecimal digits, two a byte,
//! and the digits back to bytes.

use crate::text::{debug_quoted, debug_text, hex_digit, lower_hex_digit, push_char};
use crate::CodecError;
use vstd::prelude::*;
use vstd::string::StringExecFns;
use vstd::string::StringSliceAdditionalSpecFns;

verus! {

/// The lower-case digits of `bytes`, high digit first, two a byte.
pub open spec fn hex_text(bytes: Seq<u8>) -> Seq<char>
    decreases bytes.len(),
{
    if bytes.len() == 0 {
        seq![]
    } else {
        let last = bytes.last();
        hex_text(bytes.drop_last()) + seq![
            lower_hex_digit((last / 16) as int),
            lower_hex_digit((last % 16) as int),
        ]
    }
}

/// The value of one hex digit, either case, or `None`.
pub open spec fn digit_value(digit: u8) -> Option<u8> {
    if 0x30 <= digit <= 0x39 {
        Some((digit - 0x30) as u8)
    } else if 0x61 <= digit <= 0x66 {
        Some((digit - 0x61 + 10) as u8)
    } else if 0x41 <= digit <= 0x46 {
        Some((digit - 0x41 + 10) as u8)
    } else {
        None
    }
}

/// Whether every byte of `digits` is a hex digit.
pub open spec fn all_hex_digits(digits: Seq<u8>) -> bool {
    forall|i: int| 0 <= i < digits.len() ==> (#[trigger] digit_value(digits[i])) is Some
}

/// The bytes an even run of hex digits spells: byte `i` from digits `2i`
/// and `2i + 1`.
pub open spec fn hex_bytes(digits: Seq<u8>) -> Seq<u8> {
    Seq::new(
        digits.len() / 2,
        |i: int|
            (digit_value(digits[2 * i])->0 * 16 + digit_value(digits[2 * i + 1])->0) as u8,
    )
}

/// `bytes` as lower-case hex pairs, two digits a byte and nothing between.
pub fn encode(bytes: &[u8]) -> (out: String)
    ensures
        out@ == hex_text(bytes@),
{
    let mut out = String::new();
    let mut index: usize = 0;
    while index < bytes.len()
        invariant
            index <= bytes.len(),
            out@ == hex_text(bytes@.subrange(0, index as int)),
        decreases bytes.len() - index,
    {
        let byte = bytes[index];
        push_char(&mut out, hex_digit(byte / 16, false));
        push_char(&mut out, hex_digit(byte % 16, false));
        assert(bytes@.subrange(0, index + 1).drop_last() =~= bytes@.subrange(0, index as int));
        index += 1;
    }
    assert(bytes@.subrange(0, bytes.len() as int) =~= bytes@);
    out
}

/// The value of one hex digit.
fn value(digit: u8) -> (v: Option<u8>)
    ensures
        v == digit_value(digit),
{
    if 0x30 <= digit && digit <= 0x39 {
        Some(digit - 0x30)
    } else if 0x61 <= digit && digit <= 0x66 {
        Some(digit - 0x61 + 10)
    } else if 0x41 <= digit && digit <= 0x46 {
        Some(digit - 0x41 + 10)
    } else {
        None
    }
}

/// The bytes `digits` spell, in either case; nothing else is a digit: no
/// sign, no space, no `0x`.
///
/// # Errors
/// An odd number of digits, or a character that is not a hex digit.
pub fn decode(digits: &str) -> (result: Result<Vec<u8>, CodecError>)
    ensures
        result is Ok <==> digits.spec_bytes().len() % 2 == 0 && all_hex_digits(digits.spec_bytes()),
        result matches Ok(bytes) ==> bytes@ == hex_bytes(digits.spec_bytes()),
        result matches Err(refused) ==> refused.message@ == (if digits.spec_bytes().len() % 2
            != 0 {
            "an odd number of hex digits: "@
        } else {
            "not hex: "@
        }) + debug_text(digits@),
{
    let pairs = digits.as_bytes();
    if pairs.len() % 2 != 0 {
        let mut message = String::from_str("an odd number of hex digits: ");
        message.append(debug_quoted(digits).as_str());
        assert(message@ =~= "an odd number of hex digits: "@ + debug_text(digits@));
        return Err(CodecError::new(message));
    }
    let mut out: Vec<u8> = Vec::new();
    let mut index: usize = 0;
    while index < pairs.len() / 2
        invariant
            pairs@ == digits.spec_bytes(),
            pairs.len() % 2 == 0,
            index <= pairs.len() / 2,
            out@.len() == index,
            forall|j: int| 0 <= j < 2 * index ==> (#[trigger] digit_value(pairs@[j])) is Some,
            forall|j: int| 0 <= j < index ==> #[trigger] out@[j] == hex_bytes(pairs@)[j],
        decreases pairs.len() / 2 - index,
    {
        let high = value(pairs[2 * index]);
        let low = value(pairs[2 * index + 1]);
        match (high, low) {
            (Some(high), Some(low)) => {
                out.push(high * 16 + low);
            },
            _ => {
                let mut message = String::from_str("not hex: ");
                message.append(debug_quoted(digits).as_str());
                assert(message@ =~= "not hex: "@ + debug_text(digits@));
                return Err(CodecError::new(message));
            },
        }
        index += 1;
    }
    assert(out@ =~= hex_bytes(pairs@));
    Ok(out)
}

/// Digit `2i` of the encoding is the high half of byte `i`, digit `2i + 1`
/// the low half.
proof fn lemma_hex_text(bytes: Seq<u8>)
    ensures
        hex_text(bytes).len() == 2 * bytes.len(),
        forall|i: int| 0 <= i < bytes.len() ==> {
            &&& #[trigger] hex_text(bytes)[2 * i] == lower_hex_digit((bytes[i] / 16) as int)
            &&& hex_text(bytes)[2 * i + 1] == lower_hex_digit((bytes[i] % 16) as int)
        },
    decreases bytes.len(),
{
    if bytes.len() > 0 {
        lemma_hex_text(bytes.drop_last());
    }
}

/// A digit written for `value` reads back as `value`.
proof fn lemma_digit_round_trip(value: int)
    requires
        0 <= value < 16,
    ensures
        digit_value(lower_hex_digit(value) as u8) == Some(value as u8),
        '\0' <= lower_hex_digit(value) <= '\u{7f}',
{
}

/// Decoding inverts encoding: the digits `encode` writes for `bytes` are
/// accepted by `decode` and spell exactly `bytes`.
pub proof fn law_decode_inverts_encode(bytes: Seq<u8>, text: &str)
    requires
        text@ == hex_text(bytes),
    ensures
        text.spec_bytes().len() % 2 == 0,
        all_hex_digits(text.spec_bytes()),
        hex_bytes(text.spec_bytes()) == bytes,
{
    lemma_hex_text(bytes);
    let chars = hex_text(bytes);
    assert forall|j: int| 0 <= j < chars.len() implies '\0' <= #[trigger] chars[j] <= '\u{7f}'
        && digit_value(chars[j] as u8) is Some by {
        let i = j / 2;
        assert(0 <= i < bytes.len() && (j == 2 * i || j == 2 * i + 1));
        assert(hex_text(bytes)[2 * i] == lower_hex_digit((bytes[i] / 16) as int));
        lemma_digit_round_trip((bytes[i] / 16) as int);
        lemma_digit_round_trip((bytes[i] % 16) as int);
    }
    crate::text::lemma_ascii_bytes(text);
    let digits = text.spec_bytes();
    assert forall|i: int| 0 <= i < bytes.len() implies #[trigger] hex_bytes(digits)[i] == bytes[i] by {
        assert(hex_text(bytes)[2 * i] == lower_hex_digit((bytes[i] / 16) as int));
        lemma_digit_round_trip((bytes[i] / 16) as int);
        lemma_digit_round_trip((bytes[i] % 16) as int);
    }
    assert(hex_bytes(digits) =~= bytes);
}

/// A hex digit in lower case.
pub open spec fn lower_digit(digit: u8) -> char {
    if 0x41 <= digit <= 0x46 {
        ((digit + 0x20) as u32) as char
    } else {
        (digit as u32) as char
    }
}

/// The digit written for a digit's value is the digit, in lower case.
proof fn lemma_digit_written_back(digit: u8)
    requires
        digit_value(digit) is Some,
    ensures
        lower_hex_digit(digit_value(digit)->0 as int) == lower_digit(digit),
{
}

/// Encoding inverts decoding, case aside: the digits `decode` accepts are
/// what `encode` writes for the bytes they spell, in lower case.
pub proof fn law_encode_inverts_decode(digits: Seq<u8>)
    requires
        digits.len() % 2 == 0,
        all_hex_digits(digits),
    ensures
        hex_text(hex_bytes(digits)) == digits.map_values(|d: u8| lower_digit(d)),
{
    let bytes = hex_bytes(digits);
    lemma_hex_text(bytes);
    let back = hex_text(bytes);
    let lowered = digits.map_values(|d: u8| lower_digit(d));
    assert forall|j: int| 0 <= j < digits.len() implies back[j] == lowered[j] by {
        let i = j / 2;
        assert(0 <= i < bytes.len());
        let high = digits[2 * i];
        let low = digits[2 * i + 1];
        assert(digit_value(high) is Some);
        assert(digit_value(low) is Some);
        let b = bytes[i];
        assert(b == (digit_value(high)->0 * 16 + digit_value(low)->0) as u8);
        assert(b / 16 == digit_value(high)->0 && b % 16 == digit_value(low)->0);
        lemma_digit_written_back(high);
        lemma_digit_written_back(low);
        assert(back[2 * i] == lower_hex_digit((b / 16) as int));
        if j == 2 * i {
        } else {
            assert(j == 2 * i + 1);
        }
    }
    assert(back =~= lowered);
}

} // verus!

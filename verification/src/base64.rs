//! Base 64 (RFC 4648 section 4), the standard alphabet, and base64url
//! (section 5), the alphabet a URL and a JOSE token take: bytes as text, and
//! the text back to bytes.
//!
//! The two alphabets differ in two characters and nothing else, so one
//! encoder and one decoder serve both; `url` chooses the alphabet.

use crate::text::{debug_quoted, debug_text, decimal, decimal_chars, push_char};
use crate::CodecError;
use vstd::prelude::*;
use vstd::string::StringExecFns;
use vstd::string::StringSliceAdditionalSpecFns;

verus! {

/// The character of digit `value` (under 64) in the alphabet.
pub open spec fn alphabet_char(value: u32, url: bool) -> char {
    if value < 26 {
        ((value + 65) as u8) as char
    } else if value < 52 {
        ((value - 26 + 97) as u8) as char
    } else if value < 62 {
        ((value - 52 + 48) as u8) as char
    } else if value == 62 {
        if url { '-' } else { '+' }
    } else {
        if url { '_' } else { '/' }
    }
}

/// Byte `i` of `bytes`, zero past the end.
pub open spec fn byte_or_zero(bytes: Seq<u8>, i: int) -> u8 {
    if i < bytes.len() { bytes[i] } else { 0 }
}

/// The 24 bits of the three bytes from `3 * group`, zero past the end.
pub open spec fn group_word(bytes: Seq<u8>, group: int) -> u32 {
    ((byte_or_zero(bytes, 3 * group) as u32) << 16u32) | ((byte_or_zero(bytes, 3 * group + 1)
        as u32) << 8u32) | (byte_or_zero(bytes, 3 * group + 2) as u32)
}

/// The value of digit `j` of the encoding of `bytes`.
pub open spec fn sextet(bytes: Seq<u8>, j: int) -> u32 {
    (group_word(bytes, j / 4) >> ((18 - 6 * (j % 4)) as u32)) & 0x3f
}

/// How many digits `n` bytes take, without padding.
pub open spec fn unpadded_len(n: nat) -> nat {
    4 * (n / 3) + if n % 3 == 0 { 0 } else { n % 3 + 1 }
}

/// `bytes` in base 64 (base64url where `url`), without padding.
pub open spec fn unpadded(bytes: Seq<u8>, url: bool) -> Seq<char> {
    Seq::new(unpadded_len(bytes.len()), |j: int| alphabet_char(sextet(bytes, j), url))
}

/// `bytes` in base 64 (base64url where `url`), padded with `=` to a multiple
/// of four characters.
pub open spec fn padded(bytes: Seq<u8>, url: bool) -> Seq<char> {
    let digits = unpadded(bytes, url);
    digits + Seq::new(((4 - digits.len() % 4) % 4) as nat, |i: int| '=')
}

/// The value of the digit `byte` in the alphabet.
pub open spec fn value_of(byte: u8, url: bool) -> Option<u32> {
    if 0x41 <= byte <= 0x5a {
        Some((byte - 0x41) as u32)
    } else if 0x61 <= byte <= 0x7a {
        Some((byte - 0x61 + 26) as u32)
    } else if 0x30 <= byte <= 0x39 {
        Some((byte - 0x30 + 52) as u32)
    } else if byte == (if url { 0x2du8 } else { 0x2bu8 }) {
        Some(62)
    } else if byte == (if url { 0x5fu8 } else { 0x2fu8 }) {
        Some(63)
    } else {
        None
    }
}

/// How many `=` end `text`.
pub open spec fn trailing_pads(text: Seq<u8>) -> nat
    decreases text.len(),
{
    if text.len() > 0 && text.last() == 0x3d {
        1 + trailing_pads(text.drop_last())
    } else {
        0
    }
}

/// `text` without the `=` that end it.
pub open spec fn digits_of(text: Seq<u8>) -> Seq<u8> {
    text.subrange(0, text.len() - trailing_pads(text))
}

/// The value of digit `i`, zero past the end.
pub open spec fn value_or_zero(digits: Seq<u8>, i: int, url: bool) -> u32 {
    if i < digits.len() { value_of(digits[i], url)->0 } else { 0 }
}

/// The 24 bits four digits from `4 * group` spell, zero past the end.
pub open spec fn quad_word(digits: Seq<u8>, group: int, url: bool) -> u32 {
    (value_or_zero(digits, 4 * group, url) << 18u32) | (value_or_zero(digits, 4 * group + 1, url)
        << 12u32) | (value_or_zero(digits, 4 * group + 2, url) << 6u32) | value_or_zero(
        digits,
        4 * group + 3,
        url,
    )
}

/// How many bytes `n` digits spell.
pub open spec fn decoded_len(n: nat) -> nat {
    3 * (n / 4) + if n % 4 == 0 { 0 } else { (n % 4 - 1) as nat }
}

/// The bytes `digits` spell.
pub open spec fn decoded(digits: Seq<u8>, url: bool) -> Seq<u8> {
    Seq::new(
        decoded_len(digits.len()),
        |k: int| (quad_word(digits, k / 3, url) >> ((16 - 8 * (k % 3)) as u32)) as u8,
    )
}

/// Why text is not base 64.
#[derive(PartialEq, Eq, Clone, Copy)]
pub enum Fault {
    /// More than two `=`, or any `=` where the length is not a multiple of four.
    Padding,
    /// A number of digits no encoding has.
    Length,
    /// A character outside the alphabet.
    Alphabet,
    /// Bits set past the last byte.
    Bits,
}

/// Whether the bits of the last short group past its last byte are clear.
pub open spec fn tail_bits_clear(digits: Seq<u8>, url: bool) -> bool {
    let rest = digits.len() % 4;
    let word = quad_word(digits, digits.len() as int / 4, url);
    (rest == 2 ==> word & 0xffff == 0) && (rest == 3 ==> word & 0xff == 0)
}

/// Why `text` is not base 64 (base64url where `url`), or `None` where it is.
pub open spec fn fault(text: Seq<u8>, url: bool) -> Option<Fault> {
    let pads = trailing_pads(text);
    let digits = digits_of(text);
    if pads > 2 || (pads > 0 && text.len() % 4 != 0) {
        Some(Fault::Padding)
    } else if digits.len() % 4 == 1 {
        Some(Fault::Length)
    } else if exists|i: int| 0 <= i < digits.len() && (#[trigger] value_of(digits[i], url)) is None {
        Some(Fault::Alphabet)
    } else if !tail_bits_clear(digits, url) {
        Some(Fault::Bits)
    } else {
        None
    }
}

/// The reason a fault gives in a message.
pub open spec fn fault_words(fault: Fault) -> Seq<char> {
    match fault {
        Fault::Padding => "the padding does not fit the length"@,
        Fault::Length => "a length no encoding has"@,
        Fault::Alphabet => "a character outside the alphabet"@,
        Fault::Bits => "bits set past the last byte"@,
    }
}

/// The words a refusal of `fault` opens with, the alphabet named by `name`.
pub open spec fn refusal_opening(name: Seq<char>, fault: Fault) -> Seq<char> {
    "not "@ + name + " ("@ + fault_words(fault) + "): "@
}

/// The character of digit `value`.
fn digit(value: u32, url: bool) -> (c: char)
    requires
        value < 64,
    ensures
        c == alphabet_char(value, url),
{
    if value < 26 {
        ((value + 65) as u8) as char
    } else if value < 52 {
        ((value - 26 + 97) as u8) as char
    } else if value < 62 {
        ((value - 52 + 48) as u8) as char
    } else if value == 62 {
        if url { '-' } else { '+' }
    } else {
        if url { '_' } else { '/' }
    }
}

/// The character of the six bits of `word` from bit `shift` up.
fn digit_at(word: u32, shift: u32, url: bool) -> (c: char)
    requires
        shift < 32,
    ensures
        c == alphabet_char((word >> shift) & 0x3f, url),
{
    let value = (word >> shift) & 0x3f;
    assert(value < 64) by (bit_vector)
        requires value == (word >> shift) & 0x3f;
    digit(value, url)
}

proof fn lemma_div_mod_4(g: int, t: int)
    requires
        0 <= g,
        0 <= t < 4,
    ensures
        (4 * g + t) / 4 == g,
        (4 * g + t) % 4 == t,
{
    assert((4 * g + t) / 4 == g) by (nonlinear_arith)
        requires 0 <= g, 0 <= t < 4;
    assert((4 * g + t) % 4 == t) by (nonlinear_arith)
        requires 0 <= g, 0 <= t < 4;
}

proof fn lemma_div_mod_3(g: int, t: int)
    requires
        0 <= g,
        0 <= t < 3,
    ensures
        (3 * g + t) / 3 == g,
        (3 * g + t) % 3 == t,
{
    assert((3 * g + t) / 3 == g) by (nonlinear_arith)
        requires 0 <= g, 0 <= t < 3;
    assert((3 * g + t) % 3 == t) by (nonlinear_arith)
        requires 0 <= g, 0 <= t < 3;
}

/// `bytes` in the alphabet, without padding.
fn encoding(bytes: &[u8], url: bool) -> (out: String)
    ensures
        out@ == unpadded(bytes@, url),
{
    let n = bytes.len();
    let whole = n / 3;
    let ghost spec_out = unpadded(bytes@, url);
    let mut out = String::new();
    let mut g: usize = 0;
    while g < whole
        invariant
            g <= whole,
            whole == n / 3,
            n == bytes@.len(),
            spec_out == unpadded(bytes@, url),
            out@ == spec_out.subrange(0, 4 * g as int),
        decreases whole - g,
    {
        let at = 3 * g;
        let word = ((bytes[at] as u32) << 16u32) | ((bytes[at + 1] as u32) << 8u32) | (bytes[at
            + 2] as u32);
        proof {
            assert(word == group_word(bytes@, g as int));
            assert(4 * g + 4 <= unpadded_len(n as nat)) by (nonlinear_arith)
                requires g < whole, whole == n / 3;
            lemma_div_mod_4(g as int, 0);
            lemma_div_mod_4(g as int, 1);
            lemma_div_mod_4(g as int, 2);
            lemma_div_mod_4(g as int, 3);
        }
        push_char(&mut out, digit_at(word, 18, url));
        push_char(&mut out, digit_at(word, 12, url));
        push_char(&mut out, digit_at(word, 6, url));
        push_char(&mut out, digit_at(word, 0, url));
        assert(out@ =~= spec_out.subrange(0, 4 * g + 4));
        g += 1;
    }
    let rest = n - 3 * whole;
    if rest > 0 {
        let at = 3 * whole;
        let second: u8 = if rest == 2 { bytes[at + 1] } else { 0 };
        let third: u8 = 0;
        let word = ((bytes[at] as u32) << 16u32) | ((second as u32) << 8u32) | (third as u32);
        proof {
            assert(word == group_word(bytes@, whole as int));
            lemma_div_mod_4(whole as int, 0);
            lemma_div_mod_4(whole as int, 1);
            lemma_div_mod_4(whole as int, 2);
        }
        push_char(&mut out, digit_at(word, 18, url));
        push_char(&mut out, digit_at(word, 12, url));
        if rest == 2 {
            push_char(&mut out, digit_at(word, 6, url));
        }
    }
    assert(out@ =~= spec_out);
    out
}

/// The base 64 of `bytes` padded with `=` to a multiple of four characters.
fn padded_encoding(bytes: &[u8], url: bool) -> (out: String)
    ensures
        out@ == padded(bytes@, url),
{
    let mut out = encoding(bytes, url);
    let ghost digits = out@;
    let count = (3 - bytes.len() % 3) % 3;
    proof {
        let n = bytes.len() as int;
        assert(count == (4 - unpadded_len(n as nat) % 4) % 4) by (nonlinear_arith)
            requires
                count == (3 - n % 3) % 3,
                unpadded_len(n as nat) == 4 * (n / 3) + if n % 3 == 0 { 0 } else { n % 3 + 1 },
                n >= 0;
    }
    let mut added: usize = 0;
    while added < count
        invariant
            added <= count,
            count == ((4 - digits.len() % 4) % 4) as nat,
            digits == unpadded(bytes@, url),
            out@ == digits + Seq::new(added as nat, |i: int| '='),
        decreases count - added,
    {
        push_char(&mut out, '=');
        added += 1;
        assert(out@ =~= digits + Seq::new(added as nat, |i: int| '='));
    }
    out
}

/// `bytes` in base 64, padded with `=` to a multiple of four characters.
pub fn encode(bytes: &[u8]) -> (out: String)
    ensures
        out@ == padded(bytes@, false),
{
    padded_encoding(bytes, false)
}

/// `bytes` in base 64 without the padding, as SSH writes a fingerprint.
pub fn encode_unpadded(bytes: &[u8]) -> (out: String)
    ensures
        out@ == unpadded(bytes@, false),
{
    encoding(bytes, false)
}

/// `bytes` in base64url, padded with `=` to a multiple of four characters.
pub fn encode_url(bytes: &[u8]) -> (out: String)
    ensures
        out@ == padded(bytes@, true),
{
    padded_encoding(bytes, true)
}

/// `bytes` in base64url without the padding, as a JWS writes each part
/// (RFC 7515 section 2).
pub fn encode_url_unpadded(bytes: &[u8]) -> (out: String)
    ensures
        out@ == unpadded(bytes@, true),
{
    encoding(bytes, true)
}

/// The value of one digit.
fn value(byte: u8, url: bool) -> (v: Option<u32>)
    ensures
        v == value_of(byte, url),
{
    if 0x41 <= byte && byte <= 0x5a {
        Some((byte - 0x41) as u32)
    } else if 0x61 <= byte && byte <= 0x7a {
        Some((byte - 0x61 + 26) as u32)
    } else if 0x30 <= byte && byte <= 0x39 {
        Some((byte - 0x30 + 52) as u32)
    } else if byte == (if url { 0x2du8 } else { 0x2bu8 }) {
        Some(62)
    } else if byte == (if url { 0x5fu8 } else { 0x2fu8 }) {
        Some(63)
    } else {
        None
    }
}

/// How many characters `text` has before the `=` that end it.
fn digits_end(text: &[u8]) -> (end: usize)
    ensures
        end == text@.len() - trailing_pads(text@),
        end <= text@.len(),
        digits_of(text@) == text@.subrange(0, end as int),
{
    let length = text.len();
    let mut end = length;
    assert(text@.subrange(0, length as int) =~= text@);
    while end > 0 && text[end - 1] == 0x3d
        invariant
            end <= length,
            length == text@.len(),
            trailing_pads(text@) == (length - end) + trailing_pads(text@.subrange(0, end as int)),
        decreases end,
    {
        proof {
            let prefix = text@.subrange(0, end as int);
            assert(prefix.drop_last() =~= text@.subrange(0, end - 1));
        }
        end -= 1;
    }
    end
}

/// The bytes of the whole groups of four digits among the first `end`
/// characters of `text`, or `None` at a character outside the alphabet.
fn decode_groups(text: &[u8], end: usize, url: bool) -> (result: Option<Vec<u8>>)
    requires
        end <= text@.len(),
    ensures
        ({
            let digits = text@.subrange(0, end as int);
            let groups = end / 4;
            match result {
                Some(out) => {
                    &&& forall|i: int|
                        0 <= i < 4 * groups ==> (#[trigger] value_of(digits[i], url)) is Some
                    &&& out@ == decoded(digits, url).subrange(0, 3 * groups as int)
                },
                None => exists|i: int|
                    0 <= i < digits.len() && (#[trigger] value_of(digits[i], url)) is None,
            }
        }),
{
    let ghost digits = text@.subrange(0, end as int);
    let groups = end / 4;
    let mut out: Vec<u8> = Vec::new();
    let mut g: usize = 0;
    while g < groups
        invariant
            g <= groups,
            groups == end / 4,
            end <= text@.len(),
            digits == text@.subrange(0, end as int),
            forall|i: int| 0 <= i < 4 * g ==> (#[trigger] value_of(digits[i], url)) is Some,
            out@ == decoded(digits, url).subrange(0, 3 * g as int),
        decreases groups - g,
    {
        let at = 4 * g;
        proof {
            assert(4 * g + 4 <= end) by (nonlinear_arith)
                requires g < groups, groups == end / 4;
        }
        let a = value(text[at], url);
        let b = value(text[at + 1], url);
        let c = value(text[at + 2], url);
        let d = value(text[at + 3], url);
        if a.is_none() || b.is_none() || c.is_none() || d.is_none() {
            proof {
                if a.is_none() {
                    assert(value_of(digits[at as int], url) is None);
                } else if b.is_none() {
                    assert(value_of(digits[at + 1], url) is None);
                } else if c.is_none() {
                    assert(value_of(digits[at + 2], url) is None);
                } else {
                    assert(value_of(digits[at + 3], url) is None);
                }
            }
            return None;
        }
        let word = (a.unwrap() << 18u32) | (b.unwrap() << 12u32) | (c.unwrap() << 6u32)
            | d.unwrap();
        proof {
            assert(word == quad_word(digits, g as int, url));
            assert(3 * g + 3 <= decoded_len(end as nat)) by (nonlinear_arith)
                requires g < groups, groups == end / 4;
            lemma_div_mod_3(g as int, 0);
            lemma_div_mod_3(g as int, 1);
            lemma_div_mod_3(g as int, 2);
            assert forall|i: int| 0 <= i < 4 * g + 4 implies (#[trigger] value_of(
                digits[i],
                url,
            )) is Some by {
                if i >= 4 * g {
                    assert(i == at || i == at + 1 || i == at + 2 || i == at + 3);
                }
            }
        }
        let ghost before = out@;
        out.push((word >> 16u32) as u8);
        out.push((word >> 8u32) as u8);
        out.push(word as u8);
        proof {
            let whole = decoded(digits, url);
            let k = 3 * g as int;
            assert(whole[k] == (word >> 16u32) as u8);
            assert(whole[k + 1] == (word >> 8u32) as u8);
            assert(whole[k + 2] == (word >> 0u32) as u8);
            assert((word >> 0u32) == word) by (bit_vector);
            assert(out@ =~= whole.subrange(0, k + 3));
        }
        g += 1;
    }
    Some(out)
}

/// The word the short group of digits from `at` to `end` spells, or
/// `None` at a character outside the alphabet.
fn tail_word(text: &[u8], end: usize, url: bool) -> (result: Option<u32>)
    requires
        end <= text@.len(),
        2 <= end % 4 <= 3,
    ensures
        ({
            let digits = text@.subrange(0, end as int);
            let at = 4 * (end / 4);
            match result {
                Some(word) => {
                    &&& forall|i: int| at <= i < end ==> (#[trigger] value_of(digits[i], url)) is Some
                    &&& word == quad_word(digits, (end / 4) as int, url)
                },
                None => exists|i: int|
                    0 <= i < digits.len() && (#[trigger] value_of(digits[i], url)) is None,
            }
        }),
{
    let ghost digits = text@.subrange(0, end as int);
    let groups = end / 4;
    let at = 4 * groups;
    let rest = end - at;
    let mut word: u32 = 0;
    let mut index: usize = 0;
    proof {
        let none = digits.subrange(0, at as int);
        let g = groups as int;
        let (b0, b1, b2, b3) = (
            value_or_zero(none, 4 * g, url),
            value_or_zero(none, 4 * g + 1, url),
            value_or_zero(none, 4 * g + 2, url),
            value_or_zero(none, 4 * g + 3, url),
        );
        assert(b0 == 0 && b1 == 0 && b2 == 0 && b3 == 0);
        assert((b0 << 18u32) | (b1 << 12u32) | (b2 << 6u32) | b3 == 0) by (bit_vector)
            requires b0 == 0, b1 == 0, b2 == 0, b3 == 0;
    }
    while index < rest
        invariant
            index <= rest,
            rest == end - at,
            2 <= rest <= 3,
            at == 4 * groups,
            groups == end / 4,
            end <= text@.len(),
            digits == text@.subrange(0, end as int),
            forall|i: int| at <= i < at + index ==> (#[trigger] value_of(digits[i], url)) is Some,
            word == quad_word(digits.subrange(0, at + index), groups as int, url),
        decreases rest - index,
    {
        let v = value(text[at + index], url);
        if v.is_none() {
            assert(value_of(digits[at + index], url) is None);
            return None;
        }
        let ghost old_word = word;
        word = word | (v.unwrap() << ((18 - 6 * index) as u32));
        proof {
            let before = digits.subrange(0, at + index);
            let after = digits.subrange(0, at + index + 1);
            let g = groups as int;
            let (b0, b1, b2, b3) = (
                value_or_zero(before, 4 * g, url),
                value_or_zero(before, 4 * g + 1, url),
                value_or_zero(before, 4 * g + 2, url),
                value_or_zero(before, 4 * g + 3, url),
            );
            let (a0, a1, a2, a3) = (
                value_or_zero(after, 4 * g, url),
                value_or_zero(after, 4 * g + 1, url),
                value_or_zero(after, 4 * g + 2, url),
                value_or_zero(after, 4 * g + 3, url),
            );
            let x = v.unwrap();
            assert(b3 == 0 && a3 == 0);
            if index == 0 {
                assert(b0 == 0 && b1 == 0 && b2 == 0 && a0 == x && a1 == 0 && a2 == 0);
                assert(((b0 << 18u32) | (b1 << 12u32) | (b2 << 6u32) | b3) | (x << 18u32) == (a0
                    << 18u32) | (a1 << 12u32) | (a2 << 6u32) | a3) by (bit_vector)
                    requires
                        b0 == 0, b1 == 0, b2 == 0, b3 == 0, a0 == x, a1 == 0, a2 == 0, a3 == 0;
            } else if index == 1 {
                assert(b1 == 0 && b2 == 0 && a0 == b0 && a1 == x && a2 == 0);
                assert(((b0 << 18u32) | (b1 << 12u32) | (b2 << 6u32) | b3) | (x << 12u32) == (a0
                    << 18u32) | (a1 << 12u32) | (a2 << 6u32) | a3) by (bit_vector)
                    requires b1 == 0, b2 == 0, b3 == 0, a0 == b0, a1 == x, a2 == 0, a3 == 0;
            } else {
                assert(b2 == 0 && a0 == b0 && a1 == b1 && a2 == x);
                assert(((b0 << 18u32) | (b1 << 12u32) | (b2 << 6u32) | b3) | (x << 6u32) == (a0
                    << 18u32) | (a1 << 12u32) | (a2 << 6u32) | a3) by (bit_vector)
                    requires b2 == 0, b3 == 0, a0 == b0, a1 == b1, a2 == x, a3 == 0;
            }
        }
        index += 1;
    }
    assert(digits.subrange(0, at + rest) =~= digits);
    Some(word)
}

/// The bytes `text` spells, or why it spells none.
fn decoding(text: &[u8], url: bool) -> (result: Result<Vec<u8>, Fault>)
    ensures
        match result {
            Ok(bytes) => fault(text@, url) is None && bytes@ == decoded(digits_of(text@), url),
            Err(why) => fault(text@, url) == Some(why),
        },
{
    let length = text.len();
    let end = digits_end(text);
    let ghost digits = text@.subrange(0, end as int);
    let padding = length - end;
    if padding > 2 || (padding > 0 && length % 4 != 0) {
        return Err(Fault::Padding);
    }
    if end % 4 == 1 {
        return Err(Fault::Length);
    }
    let mut out = match decode_groups(text, end, url) {
        Some(out) => out,
        None => return Err(Fault::Alphabet),
    };
    let groups = end / 4;
    if end % 4 != 0 {
        let word = match tail_word(text, end, url) {
            Some(word) => word,
            None => return Err(Fault::Alphabet),
        };
        assert forall|i: int| 0 <= i < digits.len() implies (#[trigger] value_of(
            digits[i],
            url,
        )) is Some by {
            if i >= 4 * groups {
            }
        }
        let whole = end % 4 - 1;
        let clear = if whole == 1 {
            word & 0xffff == 0
        } else {
            word & 0xff == 0
        };
        if !clear {
            return Err(Fault::Bits);
        }
        proof {
            lemma_div_mod_3(groups as int, 0);
            lemma_div_mod_3(groups as int, 1);
            assert(decoded_len(end as nat) == 3 * groups + whole);
        }
        out.push((word >> 16u32) as u8);
        if whole == 2 {
            out.push((word >> 8u32) as u8);
        }
    } else {
        assert(4 * groups == end);
    }
    assert(out@ =~= decoded(digits, url));
    Ok(out)
}

/// The reason `why` gives in a message.
fn fault_text(why: Fault) -> (text: &'static str)
    ensures
        text@ == fault_words(why),
{
    match why {
        Fault::Padding => "the padding does not fit the length",
        Fault::Length => "a length no encoding has",
        Fault::Alphabet => "a character outside the alphabet",
        Fault::Bits => "bits set past the last byte",
    }
}

/// How a refusal shows the refused text of `length` bytes: quoted while
/// short, and named by its length past 80 bytes.
pub open spec fn shown(text: Seq<char>, length: nat) -> Seq<char> {
    if length <= 80 {
        debug_text(text)
    } else {
        decimal_chars(length) + " characters"@
    }
}

/// The refusal of `text` as `name` for `why`. The text is quoted only while
/// short: a refused payload of megabytes is named by its length.
fn refusal(text: &str, name: &str, why: Fault) -> (error: CodecError)
    ensures
        error.message@ == refusal_opening(name@, why) + shown(text@, text.len() as nat),
{
    let mut message = String::from_str("not ");
    message.append(name);
    message.append(" (");
    message.append(fault_text(why));
    message.append("): ");
    assert(message@ =~= refusal_opening(name@, why));
    let showing = if text.len() <= 80 {
        debug_quoted(text)
    } else {
        let mut count = decimal(text.len());
        count.append(" characters");
        count
    };
    assert(showing@ =~= shown(text@, text.len() as nat));
    message.append(showing.as_str());
    assert(message@ =~= refusal_opening(name@, why) + shown(text@, text.len() as nat));
    CodecError::new(message)
}

/// The bytes `text` spells in base 64, padded or not.
///
/// Strict, as RFC 4648 section 3.3 asks of a decoder: nothing outside the
/// alphabet, no line break, no space, padding only at the end and only as
/// much as the length needs, and no bits set past the last byte.
///
/// # Errors
/// A character outside the alphabet, padding in the wrong place, a length
/// no encoding has, or bits set past the last byte.
pub fn decode(text: &str) -> (result: Result<Vec<u8>, CodecError>)
    ensures
        result is Ok <==> fault(text.spec_bytes(), false) is None,
        result matches Ok(bytes) ==> bytes@ == decoded(digits_of(text.spec_bytes()), false),
        result matches Err(e) ==> e.message@ == refusal_opening(
            "base 64"@,
            fault(text.spec_bytes(), false)->0,
        ) + shown(text@, text.len() as nat),
{
    match decoding(text.as_bytes(), false) {
        Ok(bytes) => Ok(bytes),
        Err(why) => Err(refusal(text, "base 64", why)),
    }
}

/// The bytes `text` spells in base64url, padded or not, as strictly as
/// [`decode`] reads base 64.
///
/// # Errors
/// As [`decode`].
pub fn decode_url(text: &str) -> (result: Result<Vec<u8>, CodecError>)
    ensures
        result is Ok <==> fault(text.spec_bytes(), true) is None,
        result matches Ok(bytes) ==> bytes@ == decoded(digits_of(text.spec_bytes()), true),
        result matches Err(e) ==> e.message@ == refusal_opening(
            "base64url"@,
            fault(text.spec_bytes(), true)->0,
        ) + shown(text@, text.len() as nat),
{
    match decoding(text.as_bytes(), true) {
        Ok(bytes) => Ok(bytes),
        Err(why) => Err(refusal(text, "base64url", why)),
    }
}

/// Three bytes spread over four digits and gathered back give the three bytes.
proof fn lemma_group_round_trip(b0: u8, b1: u8, b2: u8)
    by (bit_vector)
    ensures
        ({
            let w = ((b0 as u32) << 16u32) | ((b1 as u32) << 8u32) | (b2 as u32);
            let v0 = (w >> 18u32) & 0x3f;
            let v1 = (w >> 12u32) & 0x3f;
            let v2 = (w >> 6u32) & 0x3f;
            let v3 = (w >> 0u32) & 0x3f;
            &&& (v0 << 18u32) | (v1 << 12u32) | (v2 << 6u32) | v3 == w
            &&& (b2 == 0 ==> (v0 << 18u32) | (v1 << 12u32) | (v2 << 6u32) | 0u32 == w)
            &&& (b1 == 0 && b2 == 0 ==> (v0 << 18u32) | (v1 << 12u32) | (0u32 << 6u32) | 0u32
                == w)
            &&& (w >> 16u32) as u8 == b0
            &&& (w >> 8u32) as u8 == b1
            &&& (w >> 0u32) as u8 == b2
            &&& (b2 == 0 ==> w & 0xff == 0)
            &&& (b1 == 0 && b2 == 0 ==> w & 0xffff == 0)
            &&& v0 < 64 && v1 < 64 && v2 < 64 && v3 < 64
        }),
{
}

/// A digit's character reads back as the digit.
proof fn lemma_digit_value(value: u32, url: bool)
    requires
        value < 64,
    ensures
        value_of(alphabet_char(value, url) as u8, url) == Some(value),
        alphabet_char(value, url) as u8 != 0x3d,
        '\0' <= alphabet_char(value, url) <= '\u{7f}',
{
}

/// Appending `=` adds to the count of trailing `=`.
proof fn lemma_trailing_pads(digits: Seq<u8>, count: nat)
    ensures
        trailing_pads(digits + Seq::new(count, |i: int| 0x3du8)) == trailing_pads(digits) + count,
    decreases count,
{
    let all = digits + Seq::new(count, |i: int| 0x3du8);
    if count > 0 {
        assert(all.drop_last() =~= digits + Seq::new((count - 1) as nat, |i: int| 0x3du8));
        lemma_trailing_pads(digits, (count - 1) as nat);
    } else {
        assert(all =~= digits);
    }
}

/// The digit bytes of the unpadded encoding of `bytes`.
pub open spec fn digit_bytes(bytes: Seq<u8>, url: bool) -> Seq<u8> {
    crate::text::ascii_bytes(unpadded(bytes, url))
}

/// Each group of digits of an encoding gathers back to the group of bytes.
proof fn lemma_quad_word(bytes: Seq<u8>, url: bool, g: int)
    requires
        0 <= g,
        4 * g < unpadded_len(bytes.len()),
    ensures
        quad_word(digit_bytes(bytes, url), g, url) == group_word(bytes, g),
        forall|t: int| 0 <= t < 4 && 4 * g + t < unpadded_len(bytes.len()) ==>
            (#[trigger] value_of(digit_bytes(bytes, url)[4 * g + t], url)) is Some,
{
    let n = bytes.len() as int;
    let digits = digit_bytes(bytes, url);
    let len = unpadded_len(bytes.len()) as int;
    let b0 = byte_or_zero(bytes, 3 * g);
    let b1 = byte_or_zero(bytes, 3 * g + 1);
    let b2 = byte_or_zero(bytes, 3 * g + 2);
    lemma_group_round_trip(b0, b1, b2);
    let w = group_word(bytes, g);
    assert forall|t: int| 0 <= t < 4 && 4 * g + t < len implies value_or_zero(digits, 4 * g + t, url)
        == (w >> ((18 - 6 * t) as u32)) & 0x3f && (#[trigger] value_of(digits[4 * g + t], url)) is Some by {
        lemma_div_mod_4(g, t);
        let v = sextet(bytes, 4 * g + t);
        assert(v == (w >> ((18 - 6 * t) as u32)) & 0x3f);
        let shift = (18 - 6 * t) as u32;
        assert((w >> shift) & 0x3f < 64) by (bit_vector);
        lemma_digit_value(v, url);
    }
    assert(len == 4 * (n / 3) + if n % 3 == 0 { 0 } else { n % 3 + 1 });
    if 4 * g + 4 <= len {
        assert(4 * g + 3 < len);
    } else {
        // the short last group
        assert(g == n / 3 && n % 3 != 0) by (nonlinear_arith)
            requires
                4 * g < len, 4 * g + 4 > len, 0 <= g, n >= 0,
                len == 4 * (n / 3) + if n % 3 == 0 { 0 } else { n % 3 + 1 };
        assert(3 * g + 2 >= n) by (nonlinear_arith)
            requires g == n / 3, n >= 0;
        assert(b2 == 0);
        assert(value_or_zero(digits, 4 * g + 3, url) == 0);
        if n % 3 == 1 {
            assert(3 * g + 1 >= n) by (nonlinear_arith)
                requires g == n / 3, n % 3 == 1, n >= 0;
            assert(b1 == 0);
            assert(value_or_zero(digits, 4 * g + 2, url) == 0);
        } else {
            assert(4 * g + 2 < len);
        }
    }
}

/// The digits of an encoding are ASCII, none of them `=`, each a digit.
proof fn lemma_digits_sound(bytes: Seq<u8>, url: bool)
    ensures
        forall|j: int| 0 <= j < unpadded_len(bytes.len()) ==> {
            &&& '\0' <= #[trigger] unpadded(bytes, url)[j] <= '\u{7f}'
            &&& digit_bytes(bytes, url)[j] != 0x3d
            &&& (value_of(digit_bytes(bytes, url)[j], url)) is Some
        },
{
    let chars = unpadded(bytes, url);
    assert forall|j: int| 0 <= j < unpadded_len(bytes.len()) implies '\0' <= #[trigger] chars[j]
        <= '\u{7f}' && digit_bytes(bytes, url)[j] != 0x3d && (value_of(
        digit_bytes(bytes, url)[j],
        url,
    )) is Some by {
        let w = group_word(bytes, j / 4);
        let shift = (18 - 6 * (j % 4)) as u32;
        assert((w >> shift) & 0x3f < 64) by (bit_vector);
        lemma_digit_value(sextet(bytes, j), url);
    }
}

/// The digits of an encoding spell the bytes it was written from.
proof fn lemma_digits_decode(bytes: Seq<u8>, url: bool)
    ensures
        unpadded_len(bytes.len()) % 4 != 1,
        tail_bits_clear(digit_bytes(bytes, url), url),
        decoded(digit_bytes(bytes, url), url) == bytes,
{
    let n = bytes.len() as int;
    let len = unpadded_len(bytes.len()) as int;
    let digits = digit_bytes(bytes, url);
    assert(len % 4 != 1) by (nonlinear_arith)
        requires
            len == 4 * (n / 3) + if n % 3 == 0 { 0 } else { n % 3 + 1 },
            n >= 0;
    if len % 4 != 0 {
        let g = len / 4;
        assert(4 * g < len);
        lemma_quad_word(bytes, url, g);
        let b0 = byte_or_zero(bytes, 3 * g);
        let b1 = byte_or_zero(bytes, 3 * g + 1);
        let b2 = byte_or_zero(bytes, 3 * g + 2);
        lemma_group_round_trip(b0, b1, b2);
        assert(g == n / 3 && n % 3 != 0) by (nonlinear_arith)
            requires
                g == len / 4, len % 4 != 0, n >= 0,
                len == 4 * (n / 3) + if n % 3 == 0 { 0 } else { n % 3 + 1 };
        assert(3 * g + 2 >= n) by (nonlinear_arith)
            requires g == n / 3, n >= 0;
        if n % 3 == 1 {
            assert(3 * g + 1 >= n) by (nonlinear_arith)
                requires g == n / 3, n % 3 == 1, n >= 0;
        }
    }
    assert(decoded_len(len as nat) == n) by (nonlinear_arith)
        requires
            len == 4 * (n / 3) + if n % 3 == 0 { 0 } else { n % 3 + 1 },
            decoded_len(len as nat) == 3 * (len / 4) + if len % 4 == 0 { 0 } else { len % 4 - 1 },
            n >= 0;
    assert forall|k: int| 0 <= k < n implies #[trigger] decoded(digits, url)[k] == bytes[k] by {
        let g = k / 3;
        let r = k % 3;
        assert(4 * g < len && 0 <= g && k == 3 * g + r && 0 <= r < 3) by (nonlinear_arith)
            requires
                0 <= k < n, g == k / 3, r == k % 3,
                len == 4 * (n / 3) + if n % 3 == 0 { 0 } else { n % 3 + 1 };
        lemma_quad_word(bytes, url, g);
        lemma_group_round_trip(
            byte_or_zero(bytes, 3 * g),
            byte_or_zero(bytes, 3 * g + 1),
            byte_or_zero(bytes, 3 * g + 2),
        );
    }
    assert(decoded(digits, url) =~= bytes);
}

/// Decoding inverts encoding: the text that `encode`, `encode_unpadded`,
/// `encode_url` or `encode_url_unpadded` writes for `bytes` is accepted by
/// the decoder of the same alphabet and spells exactly `bytes`, padded or
/// not.
pub proof fn law_decode_inverts_encode(bytes: Seq<u8>, url: bool, with_padding: bool, text: &str)
    requires
        text@ == if with_padding { padded(bytes, url) } else { unpadded(bytes, url) },
    ensures
        fault(text.spec_bytes(), url) is None,
        decoded(digits_of(text.spec_bytes()), url) == bytes,
{
    let n = bytes.len() as int;
    let len = unpadded_len(bytes.len()) as int;
    let digits = digit_bytes(bytes, url);
    let count: nat = if with_padding { ((4 - len % 4) % 4) as nat } else { 0 };
    let pads = Seq::new(count, |i: int| 0x3du8);
    lemma_digits_sound(bytes, url);
    lemma_digits_decode(bytes, url);
    let chars = unpadded(bytes, url);
    assert(text@ =~= chars + Seq::new(count, |i: int| '='));
    assert(vstd::utf8::is_ascii_chars(text@)) by {
        assert forall|i: int| 0 <= i < text@.len() implies '\0' <= #[trigger] text@[i] <= '\u{7f}' by {
            if i < len {
                assert(text@[i] == chars[i]);
            }
        }
    }
    crate::text::lemma_ascii_bytes(text);
    assert(text.spec_bytes() =~= digits + pads) by {
        assert forall|i: int| 0 <= i < text@.len() implies #[trigger] text.spec_bytes()[i] == (digits + pads)[i] by {
            if i < len {
                assert(text@[i] == chars[i]);
            }
        }
    }
    assert(trailing_pads(digits) == 0);
    lemma_trailing_pads(digits, count);
    assert(digits_of(text.spec_bytes()) =~= digits);
    assert(count <= 2 && (count > 0 ==> (len + count) % 4 == 0)) by (nonlinear_arith)
        requires
            count == if with_padding { (4 - len % 4) % 4 } else { 0 },
            len % 4 != 1,
            len >= 0;
}

/// Whether `c` is a character of the alphabet: a letter, a digit, or the
/// alphabet's two others (`+` and `/`, or `-` and `_` for URLs).
pub open spec fn in_alphabet(c: char, url: bool) -> bool {
    ||| 'A' <= c <= 'Z'
    ||| 'a' <= c <= 'z'
    ||| '0' <= c <= '9'
    ||| c == (if url { '-' } else { '+' })
    ||| c == (if url { '_' } else { '/' })
}

/// `c` in the URL alphabet: `+` as `-` and `/` as `_`.
pub open spec fn to_url(c: char) -> char {
    if c == '+' {
        '-'
    } else if c == '/' {
        '_'
    } else {
        c
    }
}

/// The shape of an encoding: the unpadded digits are `(4n + 2) / 3`
/// characters of the alphabet for `n` bytes, and the padded encoding is
/// those digits and as many `=` as make its length a multiple of four.
pub proof fn law_encoding_shape(bytes: Seq<u8>, url: bool)
    ensures
        unpadded(bytes, url).len() == (4 * bytes.len() + 2) / 3,
        forall|j: int|
            0 <= j < unpadded(bytes, url).len() ==> in_alphabet(
                #[trigger] unpadded(bytes, url)[j],
                url,
            ),
        padded(bytes, url) == unpadded(bytes, url) + Seq::new(
            ((4 - unpadded(bytes, url).len() % 4) % 4) as nat,
            |i: int| '=',
        ),
        padded(bytes, url).len() % 4 == 0,
{
    let n = bytes.len() as int;
    assert(unpadded_len(n as nat) == (4 * n + 2) / 3) by (nonlinear_arith)
        requires
            n >= 0,
            unpadded_len(n as nat) == 4 * (n / 3) + if n % 3 == 0 { 0 } else { n % 3 + 1 },
    ;
    let digits = unpadded(bytes, url);
    assert forall|j: int| 0 <= j < digits.len() implies in_alphabet(#[trigger] digits[j], url) by {
        let v = sextet(bytes, j);
        assert(digits[j] == alphabet_char(v, url));
    }
    let len = digits.len() as int;
    assert((len + (4 - len % 4) % 4) % 4 == 0) by (nonlinear_arith)
        requires
            len >= 0,
    ;
}

/// The two alphabets differ in two characters and nothing else: the URL
/// encoding of any bytes is the standard one with `+` as `-` and `/` as `_`.
pub proof fn law_url_alphabet(bytes: Seq<u8>)
    ensures
        unpadded(bytes, true) == unpadded(bytes, false).map_values(|c: char| to_url(c)),
        padded(bytes, true) == padded(bytes, false).map_values(|c: char| to_url(c)),
{
    let standard = unpadded(bytes, false);
    let url = unpadded(bytes, true);
    assert forall|j: int| 0 <= j < url.len() implies url[j] == to_url(standard[j]) by {
        let v = sextet(bytes, j);
        assert(url[j] == alphabet_char(v, true));
        assert(standard[j] == alphabet_char(v, false));
    }
    assert(url =~= standard.map_values(|c: char| to_url(c)));
    let pads = Seq::new(((4 - standard.len() % 4) % 4) as nat, |i: int| '=');
    assert(padded(bytes, true) =~= padded(bytes, false).map_values(|c: char| to_url(c))) by {
        assert(padded(bytes, false) == standard + pads);
        assert(padded(bytes, true) == url + pads);
    }
}

/// The bytes after the last that is no `=` are all `=`.
proof fn lemma_pads_are_equals(text: Seq<u8>)
    ensures
        trailing_pads(text) <= text.len(),
        forall|i: int| text.len() - trailing_pads(text) <= i < text.len() ==> text[i] == 0x3d,
    decreases text.len(),
{
    if text.len() > 0 && text.last() == 0x3d {
        lemma_pads_are_equals(text.drop_last());
        assert forall|i: int| text.len() - trailing_pads(text) <= i < text.len() implies text[i]
            == 0x3d by {
            if i < text.len() - 1 {
                assert(text[i] == text.drop_last()[i]);
            }
        }
    }
}

/// Each decoder refuses the other alphabet's two characters: a text that
/// holds `+` or `/` is no base64url, one that holds `-` or `_` no standard
/// base 64.
pub proof fn law_alphabets_refuse_each_other(text: Seq<u8>, url: bool)
    requires
        (exists|i: int|
            0 <= i < text.len() && (#[trigger] text[i] == (if url { 0x2bu8 } else { 0x2du8 })
                || text[i] == (if url { 0x2fu8 } else { 0x5fu8 }))),
    ensures
        fault(text, url) is Some,
{
    let i = choose|i: int|
        0 <= i < text.len() && (#[trigger] text[i] == (if url { 0x2bu8 } else { 0x2du8 })
            || text[i] == (if url { 0x2fu8 } else { 0x5fu8 }));
    lemma_pads_are_equals(text);
    let digits = digits_of(text);
    assert(i < digits.len());
    assert(digits[i] == text[i]);
    assert(value_of(digits[i], url) is None);
}


/// Four digits spread over 24 bits give each digit back.
proof fn lemma_digits_spread(v0: u32, v1: u32, v2: u32, v3: u32)
    by (bit_vector)
    requires
        v0 < 64,
        v1 < 64,
        v2 < 64,
        v3 < 64,
    ensures
        ({
            let w = (v0 << 18u32) | (v1 << 12u32) | (v2 << 6u32) | v3;
            &&& w < 0x100_0000
            &&& (w >> 18u32) & 0x3f == v0
            &&& (w >> 12u32) & 0x3f == v1
            &&& (w >> 6u32) & 0x3f == v2
            &&& (w >> 0u32) & 0x3f == v3
        }),
{
}

/// 24 bits cut into three bytes and joined again give the bits back, and a
/// byte whose bits are clear may be left out as zero.
proof fn lemma_bytes_regroup(w: u32)
    by (bit_vector)
    requires
        w < 0x100_0000,
    ensures
        ({
            let b0 = (w >> 16u32) as u8;
            let b1 = (w >> 8u32) as u8;
            let b2 = (w >> 0u32) as u8;
            &&& ((b0 as u32) << 16u32) | ((b1 as u32) << 8u32) | (b2 as u32) == w
            &&& (w & 0xff == 0 ==> ((b0 as u32) << 16u32) | ((b1 as u32) << 8u32) | (0u8 as u32)
                == w)
            &&& (w & 0xffff == 0 ==> ((b0 as u32) << 16u32) | ((0u8 as u32) << 8u32) | (0u8
                as u32) == w)
        }),
{
}

/// A byte of the alphabet is the character of its own value.
proof fn lemma_char_of_value(byte: u8, url: bool)
    requires
        value_of(byte, url) is Some,
    ensures
        value_of(byte, url)->0 < 64,
        alphabet_char(value_of(byte, url)->0, url) as u8 == byte,
{
}

/// The groups of bytes that accepted digits spell are the digits' groups.
proof fn lemma_groups_agree(digits: Seq<u8>, url: bool, g: int)
    requires
        0 <= g,
        4 * g < digits.len(),
        digits.len() % 4 != 1,
        forall|i: int| 0 <= i < digits.len() ==> (#[trigger] value_of(digits[i], url)) is Some,
        tail_bits_clear(digits, url),
    ensures
        group_word(decoded(digits, url), g) == quad_word(digits, g, url),
        quad_word(digits, g, url) < 0x100_0000,
{
    let len = digits.len() as int;
    let bytes = decoded(digits, url);
    let n = bytes.len() as int;
    let v0 = value_or_zero(digits, 4 * g, url);
    let v1 = value_or_zero(digits, 4 * g + 1, url);
    let v2 = value_or_zero(digits, 4 * g + 2, url);
    let v3 = value_or_zero(digits, 4 * g + 3, url);
    assert(v0 < 64 && v1 < 64 && v2 < 64 && v3 < 64) by {
        if 4 * g + 1 < len {
            lemma_char_of_value(digits[4 * g + 1], url);
        }
        if 4 * g + 2 < len {
            lemma_char_of_value(digits[4 * g + 2], url);
        }
        if 4 * g + 3 < len {
            lemma_char_of_value(digits[4 * g + 3], url);
        }
        lemma_char_of_value(digits[4 * g], url);
    }
    lemma_digits_spread(v0, v1, v2, v3);
    let w = quad_word(digits, g, url);
    lemma_bytes_regroup(w);
    assert(n == 3 * (len / 4) + if len % 4 == 0 { 0 } else { len % 4 - 1 });
    assert forall|t: int| 0 <= t < 3 && 3 * g + t < n implies #[trigger] bytes[3 * g + t] == (w >> ((16
        - 8 * t) as u32)) as u8 by {
        lemma_div_mod_3(g, t);
    }
    if 4 * g + 4 <= len {
        assert(3 * g + 2 < n) by (nonlinear_arith)
            requires
                4 * g + 4 <= len, 0 <= g,
                n == 3 * (len / 4) + if len % 4 == 0 { 0 } else { len % 4 - 1 };
        assert(byte_or_zero(bytes, 3 * g) == (w >> 16u32) as u8);
        assert(byte_or_zero(bytes, 3 * g + 1) == (w >> 8u32) as u8);
        assert(byte_or_zero(bytes, 3 * g + 2) == (w >> 0u32) as u8);
    } else {
        assert(g == len / 4 && n == 3 * g + len % 4 - 1 && len % 4 >= 2) by (nonlinear_arith)
            requires
                4 * g < len, 4 * g + 4 > len, 0 <= g, len % 4 != 1,
                n == 3 * (len / 4) + if len % 4 == 0 { 0 } else { len % 4 - 1 };
        assert(byte_or_zero(bytes, 3 * g) == (w >> 16u32) as u8);
        assert(byte_or_zero(bytes, 3 * g + 2) == 0);
        if len % 4 == 3 {
            assert(byte_or_zero(bytes, 3 * g + 1) == (w >> 8u32) as u8);
        } else {
            assert(byte_or_zero(bytes, 3 * g + 1) == 0);
        }
    }
}

/// Each accepted digit is the digit its bytes are written back as.
proof fn lemma_digit_spelled(digits: Seq<u8>, url: bool, j: int)
    requires
        0 <= j < digits.len(),
        digits.len() % 4 != 1,
        forall|i: int| 0 <= i < digits.len() ==> (#[trigger] value_of(digits[i], url)) is Some,
        tail_bits_clear(digits, url),
    ensures
        alphabet_char(sextet(decoded(digits, url), j), url) as u8 == digits[j],
{
    let len = digits.len() as int;
    let bytes = decoded(digits, url);
    let g = j / 4;
    let t = j % 4;
    assert(0 <= g && 4 * g < len && j == 4 * g + t && 0 <= t < 4) by (nonlinear_arith)
        requires 0 <= j < len, g == j / 4, t == j % 4;
    lemma_groups_agree(digits, url, g);
    let v0 = value_or_zero(digits, 4 * g, url);
    let v1 = value_or_zero(digits, 4 * g + 1, url);
    let v2 = value_or_zero(digits, 4 * g + 2, url);
    let v3 = value_or_zero(digits, 4 * g + 3, url);
    if 4 * g + 1 < len {
        lemma_char_of_value(digits[4 * g + 1], url);
    }
    if 4 * g + 2 < len {
        lemma_char_of_value(digits[4 * g + 2], url);
    }
    if 4 * g + 3 < len {
        lemma_char_of_value(digits[4 * g + 3], url);
    }
    lemma_char_of_value(digits[4 * g], url);
    lemma_digits_spread(v0, v1, v2, v3);
    assert(sextet(bytes, j) == value_of(digits[j], url)->0);
}

/// Only the one canonical spelling is accepted: a text that the decoder
/// takes is, byte for byte, the encoding of the bytes it spells, padded or
/// not. Nothing outside the alphabet, no padding the length does not need,
/// no bits set past the last byte can slip through.
#[verifier::rlimit(30)]
pub proof fn law_accepted_text_is_canonical(text: Seq<u8>, url: bool)
    requires
        fault(text, url) is None,
    ensures
        ({
            let bytes = decoded(digits_of(text), url);
            ||| text == crate::text::ascii_bytes(unpadded(bytes, url))
            ||| text == crate::text::ascii_bytes(padded(bytes, url))
        }),
{
    let digits = digits_of(text);
    let len = digits.len() as int;
    let bytes = decoded(digits, url);
    let n = bytes.len() as int;
    let pads = trailing_pads(text);
    lemma_pads_are_equals(text);
    assert forall|i: int| 0 <= i < len implies (#[trigger] value_of(digits[i], url)) is Some by {
        if value_of(digits[i], url) is None {
            assert(exists|k: int| 0 <= k < digits.len() && (#[trigger] value_of(digits[k], url)) is None);
        }
    }
    assert(unpadded_len(n as nat) == len) by (nonlinear_arith)
        requires
            n == 3 * (len / 4) + if len % 4 == 0 { 0 } else { len % 4 - 1 },
            len % 4 != 1,
            len >= 0;
    let spelled = digit_bytes(bytes, url);
    assert forall|j: int| 0 <= j < len implies #[trigger] spelled[j] == digits[j] by {
        lemma_digit_spelled(digits, url, j);
    }
    assert(spelled =~= digits);
    assert(text =~= digits + Seq::new(pads, |i: int| 0x3du8));
    if pads > 0 {
        assert(pads == (4 - len % 4) % 4) by (nonlinear_arith)
            requires
                text.len() == len + pads, text.len() % 4 == 0, 0 < pads <= 2, len >= 0;
        let chars = unpadded(bytes, url);
        assert(crate::text::ascii_bytes(padded(bytes, url)) =~= crate::text::ascii_bytes(chars)
            + Seq::new(pads, |i: int| 0x3du8));
    }
}

} // verus!

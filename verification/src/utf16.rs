//! UTF-16: two bytes a code unit, and the bytes back to text. Little-endian
//! is how the Windows protocols write it, low byte first; big-endian is
//! the other byte order Unicode names, for a partner who declares it.
//!
//! Two readings, because the protocols need two: [`decode`] refuses bytes
//! that are not UTF-16 (an odd length, an unpaired surrogate), for a name a
//! gate decides on and for any payload; [`decode_lossy`] replaces an
//! unpaired surrogate with U+FFFD and drops an odd trailing byte, for a
//! protocol's own name that is only shown, never for a payload.

use crate::text::{
    char_from_u32, decimal, decimal_chars, hex4_chars, push_char,
    push_hex4,
};
use crate::CodecError;
use vstd::prelude::*;
use vstd::std_specs::iter::IteratorSpec;
use vstd::string::StringExecFns;

verus! {

broadcast use vstd::string::group_string_axioms;

/// The UTF-16 code units of `c`: itself below U+10000, a surrogate pair
/// above.
pub open spec fn units_of(c: char) -> Seq<u16> {
    let v = c as u32;
    if v < 0x10000 {
        seq![v as u16]
    } else {
        let w = (v - 0x10000) as u32;
        seq![(0xd800 + (w >> 10u32)) as u16, (0xdc00 + (w & 0x3ff)) as u16]
    }
}

/// The UTF-16 code units of `text`.
pub open spec fn text_units(text: Seq<char>) -> Seq<u16>
    decreases text.len(),
{
    if text.len() == 0 {
        seq![]
    } else {
        text_units(text.drop_last()) + units_of(text.last())
    }
}

/// The two bytes of `unit`, high first where `big`.
pub open spec fn unit_bytes(unit: u16, big: bool) -> Seq<u8> {
    if big {
        seq![(unit >> 8u16) as u8, unit as u8]
    } else {
        seq![unit as u8, (unit >> 8u16) as u8]
    }
}

/// The bytes of `units`, each high first where `big`.
pub open spec fn units_bytes(units: Seq<u16>, big: bool) -> Seq<u8>
    decreases units.len(),
{
    if units.len() == 0 {
        seq![]
    } else {
        units_bytes(units.drop_last(), big) + unit_bytes(units.last(), big)
    }
}

/// `text` as UTF-16 bytes, each code unit high byte first where `big`.
pub open spec fn encoded(text: Seq<char>, big: bool) -> Seq<u8> {
    units_bytes(text_units(text), big)
}

/// The code units of `bytes`, two bytes each, high first where `big`; an
/// odd last byte is not one.
pub open spec fn byte_units(bytes: Seq<u8>, big: bool) -> Seq<u16> {
    Seq::new(
        bytes.len() / 2,
        |i: int|
            if big {
                (bytes[2 * i] * 256 + bytes[2 * i + 1]) as u16
            } else {
                (bytes[2 * i + 1] * 256 + bytes[2 * i]) as u16
            },
    )
}

/// Whether `unit` is a surrogate.
pub open spec fn is_surrogate(unit: u16) -> bool {
    0xd800 <= unit <= 0xdfff
}

/// Whether `unit` is a high (leading) surrogate.
pub open spec fn is_high(unit: u16) -> bool {
    0xd800 <= unit <= 0xdbff
}

/// Whether `unit` is a low (trailing) surrogate.
pub open spec fn is_low(unit: u16) -> bool {
    0xdc00 <= unit <= 0xdfff
}

/// The scalar value a surrogate pair stands for.
pub open spec fn paired(high: u16, low: u16) -> u32 {
    (0x10000 + (high - 0xd800) * 0x400 + (low - 0xdc00)) as u32
}

/// The text `units` spell, or the first surrogate without its pair.
pub open spec fn decode_units(units: Seq<u16>) -> Result<Seq<char>, u16>
    decreases units.len(),
{
    if units.len() == 0 {
        Ok(seq![])
    } else {
        let u = units[0];
        if !is_surrogate(u) {
            match decode_units(units.drop_first()) {
                Ok(text) => Ok(seq![(u as u32) as char] + text),
                Err(unpaired) => Err(unpaired),
            }
        } else if is_high(u) && units.len() >= 2 && is_low(units[1]) {
            match decode_units(units.subrange(2, units.len() as int)) {
                Ok(text) => Ok(seq![paired(u, units[1]) as char] + text),
                Err(unpaired) => Err(unpaired),
            }
        } else {
            Err(u)
        }
    }
}

/// The text `units` spell, each unpaired surrogate as U+FFFD.
pub open spec fn decode_units_lossy(units: Seq<u16>) -> Seq<char>
    decreases units.len(),
{
    if units.len() == 0 {
        seq![]
    } else {
        let u = units[0];
        if !is_surrogate(u) {
            seq![(u as u32) as char] + decode_units_lossy(units.drop_first())
        } else if is_high(u) && units.len() >= 2 && is_low(units[1]) {
            seq![paired(u, units[1]) as char] + decode_units_lossy(
                units.subrange(2, units.len() as int),
            )
        } else {
            seq!['\u{fffd}'] + decode_units_lossy(units.drop_first())
        }
    }
}

/// The words a refusal of an odd number of bytes says.
pub open spec fn odd_words() -> Seq<char> {
    " bytes are not UTF-16: a code unit is two"@
}

/// The words a refusal of an unpaired surrogate says.
pub open spec fn unpaired_words() -> Seq<char> {
    " has no pair"@
}

/// The refusal of `length` bytes, an odd number.
pub open spec fn odd_refusal(length: nat) -> Seq<char> {
    decimal_chars(length) + odd_words()
}

/// The refusal of a surrogate without its pair, which it names.
pub open spec fn unpaired_refusal(unpaired: u16) -> Seq<char> {
    "not UTF-16: the surrogate 0x"@ + hex4_chars(unpaired as u32, false) + unpaired_words()
}

proof fn lemma_pair_bits(v: u32)
    by (bit_vector)
    requires
        0x10000 <= v <= 0x10ffff,
    ensures
        ({
            let w = (v - 0x10000) as u32;
            let high = (0xd800 + (w >> 10u32)) as u16;
            let low = (0xdc00 + (w & 0x3ff)) as u16;
            &&& 0xd800 <= high <= 0xdbff
            &&& 0xdc00 <= low <= 0xdfff
            &&& (0x10000 + (high - 0xd800) * 0x400 + (low - 0xdc00)) as u32 == v
        }),
{
}

/// The code units of `c`, appended to `out` as bytes.
fn push_units(out: &mut Vec<u8>, c: char, big: bool)
    ensures
        final(out)@ == old(out)@ + units_bytes(units_of(c), big),
{
    let v = c as u32;
    if v < 0x10000 {
        let unit = v as u16;
        if big {
            out.push((unit >> 8u16) as u8);
            out.push(unit as u8);
        } else {
            out.push(unit as u8);
            out.push((unit >> 8u16) as u8);
        }
        proof {
            let units = units_of(c);
            assert(units.drop_last() =~= Seq::<u16>::empty());
            assert(units_bytes(Seq::<u16>::empty(), big) =~= Seq::<u8>::empty());
            assert(out@ =~= old(out)@ + units_bytes(units, big));
        }
    } else {
        proof {
            assert(v <= 0x10ffff) by {
                vstd::utf8::char_is_scalar(c);
            }
            lemma_pair_bits(v);
        }
        let w = v - 0x10000;
        assert(w >> 10u32 <= 0x3ff && w & 0x3ff <= 0x3ff) by (bit_vector)
            requires w == v - 0x10000, 0x10000 <= v <= 0x10ffff;
        let high = (0xd800 + (w >> 10u32)) as u16;
        let low = (0xdc00 + (w & 0x3ff)) as u16;
        if big {
            out.push((high >> 8u16) as u8);
            out.push(high as u8);
            out.push((low >> 8u16) as u8);
            out.push(low as u8);
        } else {
            out.push(high as u8);
            out.push((high >> 8u16) as u8);
            out.push(low as u8);
            out.push((low >> 8u16) as u8);
        }
        proof {
            let units = units_of(c);
            assert(units =~= seq![high, low]);
            assert(units.drop_last() =~= seq![high]);
            assert(seq![high].drop_last() =~= Seq::<u16>::empty());
            assert(units_bytes(Seq::<u16>::empty(), big) =~= Seq::<u8>::empty());
            assert(units_bytes(seq![high], big) =~= unit_bytes(high, big));
            assert(units_bytes(units, big) =~= unit_bytes(high, big) + unit_bytes(low, big));
            assert(out@ =~= old(out)@ + units_bytes(units, big));
        }
    }
}

proof fn lemma_units_bytes_concat(x: Seq<u16>, y: Seq<u16>, big: bool)
    ensures
        units_bytes(x + y, big) == units_bytes(x, big) + units_bytes(y, big),
    decreases y.len(),
{
    if y.len() == 0 {
        assert(x + y =~= x);
        assert(units_bytes(x, big) + units_bytes(y, big) =~= units_bytes(x, big));
    } else {
        assert((x + y).drop_last() =~= x + y.drop_last());
        lemma_units_bytes_concat(x, y.drop_last(), big);
        assert(units_bytes(x + y, big) =~= units_bytes(x, big) + units_bytes(y, big));
    }
}

/// `text` as UTF-16 bytes, each code unit high first where `big`.
fn encoding(text: &str, big: bool) -> (bytes: Vec<u8>)
    ensures
        bytes@ == encoded(text@, big),
{
    let mut out: Vec<u8> = Vec::new();
    let mut chars = text.chars();
    let ghost mut index: nat = 0;
    loop
        invariant
            index <= text@.len(),
            chars.remaining() == text@.subrange(index as int, text@.len() as int),
            out@ == encoded(text@.subrange(0, index as int), big),
        ensures
            out@ == encoded(text@, big),
        decreases text@.len() - index,
    {
        let c = match chars.next() {
            Some(c) => c,
            None => {
                assert(text@.subrange(0, index as int) =~= text@);
                break;
            },
        };
        push_units(&mut out, c, big);
        proof {
            let head = text@.subrange(0, index + 1 as int);
            assert(head.drop_last() =~= text@.subrange(0, index as int));
            lemma_units_bytes_concat(text_units(head.drop_last()), units_of(c), big);
            assert(text@.subrange(index as int, text@.len() as int).drop_first() =~= text@.subrange(
                index + 1 as int,
                text@.len() as int,
            ));
            index = index + 1;
        }
    }
    out
}

/// `text` as UTF-16 code units, each little-endian.
pub fn encode(text: &str) -> (bytes: Vec<u8>)
    ensures
        bytes@ == encoded(text@, false),
{
    encoding(text, false)
}

/// `text` as UTF-16 code units, each big-endian.
pub fn encode_be(text: &str) -> (bytes: Vec<u8>)
    ensures
        bytes@ == encoded(text@, true),
{
    encoding(text, true)
}

/// `result` with `prefix` before the text it holds.
pub open spec fn prefixed(prefix: Seq<char>, result: Result<Seq<char>, u16>) -> Result<
    Seq<char>,
    u16,
> {
    match result {
        Ok(text) => Ok(prefix + text),
        Err(unpaired) => Err(unpaired),
    }
}

/// Code unit `i` of `bytes`.
fn unit_at(bytes: &[u8], i: usize, big: bool) -> (unit: u16)
    requires
        i < bytes@.len() / 2,
    ensures
        unit == byte_units(bytes@, big)[i as int],
{
    let length = bytes.len();
    assert(2 * i + 1 < length);
    let (first, second) = (bytes[2 * i] as u16, bytes[2 * i + 1] as u16);
    if big {
        first * 256 + second
    } else {
        second * 256 + first
    }
}

/// The character of a code unit that is no surrogate.
fn plain_char(unit: u16) -> (c: char)
    requires
        !is_surrogate(unit),
    ensures
        c == (unit as u32) as char,
{
    match char_from_u32(unit as u32) {
        Some(c) => {
            proof {
                vstd::utf8::char_u32_cast(c, unit as u32);
            }
            c
        },
        None => {
            proof {
                assert(vstd::utf8::is_scalar(unit as u32));
            }
            '\u{fffd}'
        },
    }
}

/// The character of a surrogate pair.
fn pair_char(high: u16, low: u16) -> (c: char)
    requires
        is_high(high),
        is_low(low),
    ensures
        c == paired(high, low) as char,
{
    let value = 0x10000 + (high as u32 - 0xd800) * 0x400 + (low as u32 - 0xdc00);
    match char_from_u32(value) {
        Some(c) => {
            proof {
                vstd::utf8::char_u32_cast(c, value);
            }
            c
        },
        None => {
            proof {
                assert(vstd::utf8::is_scalar(value));
            }
            '\u{fffd}'
        },
    }
}

/// The text `bytes` spell as UTF-16, strictly.
fn strictly(bytes: &[u8], big: bool) -> (result: Result<String, CodecError>)
    ensures
        bytes@.len() % 2 != 0 ==> (result matches Err(e) && e.message@ == odd_refusal(
            bytes@.len(),
        )),
        bytes@.len() % 2 == 0 ==> match decode_units(byte_units(bytes@, big)) {
            Ok(text) => result matches Ok(read) && read@ == text,
            Err(unpaired) => result matches Err(e) && e.message@ == unpaired_refusal(unpaired),
        },
{
    if bytes.len() % 2 != 0 {
        let mut message = decimal(bytes.len());
        message.append(" bytes are not UTF-16: a code unit is two");
        return Err(CodecError::new(message));
    }
    let ghost units = byte_units(bytes@, big);
    let count = bytes.len() / 2;
    let mut out = String::new();
    let mut i: usize = 0;
    proof {
        assert(units.subrange(0, units.len() as int) =~= units);
        match decode_units(units) {
            Ok(t) => {
                assert(out@ + t =~= t);
            },
            Err(_) => {},
        }
    }
    loop
        invariant
            i <= count,
            count == bytes@.len() / 2,
            bytes@.len() % 2 == 0,
            units == byte_units(bytes@, big),
            decode_units(units) == prefixed(
                out@,
                decode_units(units.subrange(i as int, units.len() as int)),
            ),
        decreases count - i,
    {
        let ghost rest = units.subrange(i as int, units.len() as int);
        let ghost before = out@;
        if i == count {
            assert(rest =~= Seq::<u16>::empty());
            return Ok(out);
        }
        let unit = unit_at(bytes, i, big);
        if !(0xd800 <= unit && unit <= 0xdfff) {
            push_char(&mut out, plain_char(unit));
            proof {
                assert(rest.drop_first() =~= units.subrange(i + 1, units.len() as int));
                match decode_units(rest.drop_first()) {
                    Ok(t) => {
                        assert(before + (seq![(unit as u32) as char] + t) =~= out@ + t);
                    },
                    Err(_) => {},
                }
            }
            i += 1;
        } else if unit <= 0xdbff && i + 1 < count && {
            let next = unit_at(bytes, i + 1, big);
            0xdc00 <= next && next <= 0xdfff
        } {
            let next = unit_at(bytes, i + 1, big);
            push_char(&mut out, pair_char(unit, next));
            proof {
                assert(rest.subrange(2, rest.len() as int) =~= units.subrange(i + 2, units.len() as int));
                match decode_units(rest.subrange(2, rest.len() as int)) {
                    Ok(t) => {
                        assert(before + (seq![paired(unit, next) as char] + t) =~= out@ + t);
                    },
                    Err(_) => {},
                }
            }
            i += 2;
        } else {
            let mut message = String::from_str("not UTF-16: the surrogate 0x");
            push_hex4(&mut message, unit as u32, false);
            message.append(" has no pair");
            proof {
                assert(decode_units(rest) == Err::<Seq<char>, u16>(unit));
            }
            return Err(CodecError::new(message));
        }
    }
}

/// The text little-endian `bytes` spell, strictly.
///
/// # Errors
/// An odd number of bytes, or a surrogate without its pair.
pub fn decode(bytes: &[u8]) -> (result: Result<String, CodecError>)
    ensures
        bytes@.len() % 2 != 0 ==> (result matches Err(e) && e.message@ == odd_refusal(
            bytes@.len(),
        )),
        bytes@.len() % 2 == 0 ==> match decode_units(byte_units(bytes@, false)) {
            Ok(text) => result matches Ok(read) && read@ == text,
            Err(unpaired) => result matches Err(e) && e.message@ == unpaired_refusal(unpaired),
        },
{
    strictly(bytes, false)
}

/// The text big-endian `bytes` spell, strictly.
///
/// # Errors
/// An odd number of bytes, or a surrogate without its pair.
pub fn decode_be(bytes: &[u8]) -> (result: Result<String, CodecError>)
    ensures
        bytes@.len() % 2 != 0 ==> (result matches Err(e) && e.message@ == odd_refusal(
            bytes@.len(),
        )),
        bytes@.len() % 2 == 0 ==> match decode_units(byte_units(bytes@, true)) {
            Ok(text) => result matches Ok(read) && read@ == text,
            Err(unpaired) => result matches Err(e) && e.message@ == unpaired_refusal(unpaired),
        },
{
    strictly(bytes, true)
}

/// The text little-endian `bytes` spell, each unpaired surrogate as U+FFFD
/// and an odd trailing byte dropped.
pub fn decode_lossy(bytes: &[u8]) -> (text: String)
    ensures
        text@ == decode_units_lossy(byte_units(bytes@, false)),
{
    let ghost units = byte_units(bytes@, false);
    let count = bytes.len() / 2;
    let mut out = String::new();
    let mut i: usize = 0;
    proof {
        assert(units.subrange(0, units.len() as int) =~= units);
        assert(out@ + decode_units_lossy(units) =~= decode_units_lossy(units));
    }
    while i < count
        invariant
            i <= count,
            count == bytes@.len() / 2,
            units == byte_units(bytes@, false),
            decode_units_lossy(units) == out@ + decode_units_lossy(
                units.subrange(i as int, units.len() as int),
            ),
        decreases count - i,
    {
        let ghost rest = units.subrange(i as int, units.len() as int);
        let ghost before = out@;
        let unit = unit_at(bytes, i, false);
        if !(0xd800 <= unit && unit <= 0xdfff) {
            push_char(&mut out, plain_char(unit));
            proof {
                assert(rest.drop_first() =~= units.subrange(i + 1, units.len() as int));
                assert(before + (seq![(unit as u32) as char] + decode_units_lossy(rest.drop_first()))
                    =~= out@ + decode_units_lossy(rest.drop_first()));
            }
            i += 1;
        } else if unit <= 0xdbff && i + 1 < count && {
            let next = unit_at(bytes, i + 1, false);
            0xdc00 <= next && next <= 0xdfff
        } {
            let next = unit_at(bytes, i + 1, false);
            push_char(&mut out, pair_char(unit, next));
            proof {
                let tail = rest.subrange(2, rest.len() as int);
                assert(tail =~= units.subrange(i + 2, units.len() as int));
                assert(before + (seq![paired(unit, next) as char] + decode_units_lossy(tail))
                    =~= out@ + decode_units_lossy(tail));
            }
            i += 2;
        } else {
            push_char(&mut out, '\u{fffd}');
            proof {
                assert(rest.drop_first() =~= units.subrange(i + 1, units.len() as int));
                assert(before + (seq!['\u{fffd}'] + decode_units_lossy(rest.drop_first()))
                    =~= out@ + decode_units_lossy(rest.drop_first()));
            }
            i += 1;
        }
    }
    assert(units.subrange(i as int, units.len() as int) =~= Seq::<u16>::empty());
    assert(out@ + Seq::<char>::empty() =~= out@);
    out
}

proof fn lemma_unit_round_trip(unit: u16)
    by (bit_vector)
    ensures
        (((unit >> 8u16) as u8) * 256 + (unit as u8)) as u16 == unit,
{
}

proof fn lemma_units_bytes_index(units: Seq<u16>, big: bool)
    ensures
        units_bytes(units, big).len() == 2 * units.len(),
        forall|i: int|
            #![trigger units[i]]
            0 <= i < units.len() ==> {
                &&& units_bytes(units, big)[2 * i] == unit_bytes(units[i], big)[0]
                &&& units_bytes(units, big)[2 * i + 1] == unit_bytes(units[i], big)[1]
            },
    decreases units.len(),
{
    if units.len() > 0 {
        let init = units.drop_last();
        lemma_units_bytes_index(init, big);
        let head = units_bytes(init, big);
        let bytes = units_bytes(units, big);
        assert(bytes == head + unit_bytes(units.last(), big));
        assert forall|i: int| 0 <= i < units.len() implies {
            &&& bytes[2 * i] == unit_bytes(#[trigger] units[i], big)[0]
            &&& bytes[2 * i + 1] == unit_bytes(units[i], big)[1]
        } by {
            if i < units.len() - 1 {
                assert(init[i] == units[i]);
            }
        }
    }
}

/// The bytes of code units read back as the code units.
proof fn lemma_byte_units_of_bytes(units: Seq<u16>, big: bool)
    ensures
        byte_units(units_bytes(units, big), big) == units,
{
    lemma_units_bytes_index(units, big);
    let bytes = units_bytes(units, big);
    assert forall|i: int| 0 <= i < units.len() implies #[trigger] byte_units(bytes, big)[i] == units[i] by {
        assert(bytes[2 * i] == unit_bytes(units[i], big)[0]);
        lemma_unit_round_trip(units[i]);
    }
    assert(byte_units(bytes, big) =~= units);
}

proof fn lemma_text_units_concat(x: Seq<char>, y: Seq<char>)
    ensures
        text_units(x + y) == text_units(x) + text_units(y),
    decreases y.len(),
{
    if y.len() == 0 {
        assert(x + y =~= x);
        assert(text_units(x) + text_units(y) =~= text_units(x));
    } else {
        assert((x + y).drop_last() =~= x + y.drop_last());
        lemma_text_units_concat(x, y.drop_last());
        assert(text_units(x + y) =~= text_units(x) + text_units(y));
    }
}

/// The code units of one character decode, strictly or not, to it.
proof fn lemma_decode_char(c: char, rest: Seq<u16>)
    ensures
        decode_units(units_of(c) + rest) == prefixed(seq![c], decode_units(rest)),
        decode_units_lossy(units_of(c) + rest) == seq![c] + decode_units_lossy(rest),
{
    let v = c as u32;
    let all = units_of(c) + rest;
    vstd::utf8::char_is_scalar(c);
    vstd::utf8::char_u32_cast(c, v);
    if v < 0x10000 {
        assert(all.drop_first() =~= rest);
        assert((v as u16) as u32 == v);
    } else {
        lemma_pair_bits(v);
        assert(all.subrange(2, all.len() as int) =~= rest);
    }
}

/// The code units of a text decode, strictly or not, to the text.
proof fn lemma_decode_text(text: Seq<char>)
    ensures
        decode_units(text_units(text)) == Ok::<Seq<char>, u16>(text),
        decode_units_lossy(text_units(text)) == text,
    decreases text.len(),
{
    if text.len() == 0 {
        assert(text_units(text) =~= Seq::<u16>::empty());
        assert(text =~= Seq::<char>::empty());
    } else {
        let c = text[0];
        let tail = text.drop_first();
        assert(seq![c] + tail =~= text);
        lemma_text_units_concat(seq![c], tail);
        assert(seq![c].drop_last() =~= Seq::<char>::empty());
        assert(text_units(Seq::<char>::empty()) =~= Seq::<u16>::empty());
        assert(text_units(seq![c]) =~= units_of(c));
        lemma_decode_text(tail);
        lemma_decode_char(c, text_units(tail));
    }
}

/// Decoding inverts encoding: what `encode` (or `encode_be`) writes for
/// `text` is an even number of bytes that `decode` (`decode_be`), and
/// `decode_lossy` for little-endian, read back as exactly `text`.
pub proof fn law_decode_inverts_encode(text: Seq<char>, big: bool)
    ensures
        encoded(text, big).len() % 2 == 0,
        decode_units(byte_units(encoded(text, big), big)) == Ok::<Seq<char>, u16>(text),
        decode_units_lossy(byte_units(encoded(text, big), big)) == text,
{
    lemma_units_bytes_index(text_units(text), big);
    lemma_byte_units_of_bytes(text_units(text), big);
    lemma_decode_text(text);
}

proof fn lemma_pair_units(high: u16, low: u16)
    by (bit_vector)
    requires
        0xd800 <= high <= 0xdbff,
        0xdc00 <= low <= 0xdfff,
    ensures
        ({
            let v = (0x10000 + (high - 0xd800) * 0x400 + (low - 0xdc00)) as u32;
            let w = (v - 0x10000) as u32;
            &&& 0x10000 <= v <= 0x10ffff
            &&& (0xd800 + (w >> 10u32)) as u16 == high
            &&& (0xdc00 + (w & 0x3ff)) as u16 == low
        }),
{
}

proof fn lemma_unit_split(b0: u8, b1: u8)
    by (bit_vector)
    ensures
        ((((b0 * 256 + b1) as u16) >> 8u16) as u8) == b0,
        (((b0 * 256 + b1) as u16) as u8) == b1,
{
}

/// The text that code units decode to, strictly, is written as those code
/// units again.
proof fn lemma_units_of_decoded(units: Seq<u16>)
    requires
        decode_units(units) is Ok,
    ensures
        text_units(decode_units(units)->Ok_0) == units,
    decreases units.len(),
{
    if units.len() > 0 {
        let u = units[0];
        if !is_surrogate(u) {
            let rest = units.drop_first();
            lemma_units_of_decoded(rest);
            let c = (u as u32) as char;
            let tail = decode_units(rest)->Ok_0;
            lemma_text_units_concat(seq![c], tail);
            assert(seq![c].drop_last() =~= Seq::<char>::empty());
            assert(text_units(Seq::<char>::empty()) =~= Seq::<u16>::empty());
            assert(seq![c].last() == c);
            assert(text_units(seq![c]) =~= units_of(c));
            assert(vstd::utf8::is_scalar(u as u32));
            assert((c as u32) == (u as u32));
            assert(units_of(c) =~= seq![u]);
            assert(seq![u] + rest =~= units);
            assert(decode_units(units)->Ok_0 == seq![c] + tail);
        } else {
            let low = units[1];
            let rest = units.subrange(2, units.len() as int);
            lemma_units_of_decoded(rest);
            lemma_pair_units(u, low);
            let v = paired(u, low);
            let c = v as char;
            let tail = decode_units(rest)->Ok_0;
            lemma_text_units_concat(seq![c], tail);
            assert(seq![c].drop_last() =~= Seq::<char>::empty());
            assert(text_units(Seq::<char>::empty()) =~= Seq::<u16>::empty());
            assert(seq![c].last() == c);
            assert(text_units(seq![c]) =~= units_of(c));
            assert(vstd::utf8::is_scalar(v));
            assert((c as u32) == v);
            assert(units_of(c) =~= seq![u, low]);
            assert(seq![u, low] + rest =~= units);
            assert(decode_units(units)->Ok_0 == seq![c] + tail);
        }
    }
}

/// Bytes of an even length are written back by the code units they hold.
proof fn lemma_bytes_of_units(bytes: Seq<u8>, big: bool)
    requires
        bytes.len() % 2 == 0,
    ensures
        units_bytes(byte_units(bytes, big), big) == bytes,
{
    let units = byte_units(bytes, big);
    lemma_units_bytes_index(units, big);
    let back = units_bytes(units, big);
    assert forall|i: int| 0 <= i < bytes.len() implies back[i] == bytes[i] by {
        let k = i / 2;
        assert(0 <= k < units.len());
        let unit = units[k];
        lemma_unit_split(bytes[2 * k], bytes[2 * k + 1]);
        lemma_unit_split(bytes[2 * k + 1], bytes[2 * k]);
        if i % 2 == 0 {
            assert(i == 2 * k);
        } else {
            assert(i == 2 * k + 1);
        }
    }
    assert(back =~= bytes);
}

/// Encoding inverts decoding: bytes that `decode` (or `decode_be`)
/// accepts are exactly what `encode` (`encode_be`) writes for the text it
/// gives, so no two byte strings read as one text.
pub proof fn law_encode_inverts_decode(bytes: Seq<u8>, big: bool)
    requires
        bytes.len() % 2 == 0,
        decode_units(byte_units(bytes, big)) is Ok,
    ensures
        encoded(decode_units(byte_units(bytes, big))->Ok_0, big) == bytes,
{
    lemma_units_of_decoded(byte_units(bytes, big));
    lemma_bytes_of_units(bytes, big);
}

} // verus!

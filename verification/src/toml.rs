//! TOML 1.0 basic strings: quoting text so any TOML reader takes back
//! exactly that text, and reading one back.
//!
//! Quoting escapes what TOML requires: the quotation mark, the backslash
//! and every control character, U+0000 to U+001F and U+007F, using the
//! short escapes where TOML has one and `\uXXXX` elsewhere. Reading is
//! strict: an unescaped control character other than tab, an unknown
//! escape, or a `\u` naming no character is refused.

use crate::char_reader::CharReader;
use crate::text::{
    case_hex_digit, debug_quoted, debug_text, decimal_chars, hex4_chars, push_char, push_hex4,
    char_from_u32,
};
use crate::CodecError;
use vstd::prelude::*;
use vstd::std_specs::iter::IteratorSpec;
use vstd::string::StringExecFns;
use vstd::string::StringSliceAdditionalSpecFns;

verus! {

broadcast use vstd::string::group_string_axioms;

/// Whether TOML requires `c` escaped in a basic string as a control
/// character.
pub open spec fn is_control(c: char) -> bool {
    (c as u32) <= 0x1f || (c as u32) == 0x7f
}

/// How `c` is written inside a basic string.
pub open spec fn escaped_char(c: char) -> Seq<char> {
    if c == '"' {
        seq!['\\', '"']
    } else if c == '\\' {
        seq!['\\', '\\']
    } else if c == '\u{8}' {
        seq!['\\', 'b']
    } else if c == '\t' {
        seq!['\\', 't']
    } else if c == '\n' {
        seq!['\\', 'n']
    } else if c == '\u{c}' {
        seq!['\\', 'f']
    } else if c == '\r' {
        seq!['\\', 'r']
    } else if is_control(c) {
        seq!['\\', 'u'] + hex4_chars(c as u32, true)
    } else {
        seq![c]
    }
}

/// `text` with every character written as a basic string writes it.
pub open spec fn escaped(text: Seq<char>) -> Seq<char>
    decreases text.len(),
{
    if text.len() == 0 {
        seq![]
    } else {
        escaped(text.drop_last()) + escaped_char(text.last())
    }
}

/// `text` as a TOML basic string, quotes included.
pub open spec fn quoted(text: Seq<char>) -> Seq<char> {
    seq!['"'] + escaped(text) + seq!['"']
}

/// `text` as a TOML basic string, quotes included.
pub fn quote(text: &str) -> (literal: String)
    ensures
        literal@ == quoted(text@),
{
    let mut out = String::new();
    push_char(&mut out, '"');
    let mut chars = text.chars();
    let ghost mut index: nat = 0;
    loop
        invariant
            index <= text@.len(),
            chars.remaining() == text@.subrange(index as int, text@.len() as int),
            out@ == seq!['"'] + escaped(text@.subrange(0, index as int)),
        ensures
            out@ == seq!['"'] + escaped(text@),
        decreases text@.len() - index,
    {
        let character = match chars.next() {
            Some(character) => character,
            None => {
                assert(text@.subrange(0, index as int) =~= text@);
                break;
            },
        };
        let ghost before = out@;
        if character == '"' {
            push_char(&mut out, '\\');
            push_char(&mut out, '"');
        } else if character == '\\' {
            push_char(&mut out, '\\');
            push_char(&mut out, '\\');
        } else if character == '\u{8}' {
            push_char(&mut out, '\\');
            push_char(&mut out, 'b');
        } else if character == '\t' {
            push_char(&mut out, '\\');
            push_char(&mut out, 't');
        } else if character == '\n' {
            push_char(&mut out, '\\');
            push_char(&mut out, 'n');
        } else if character == '\u{c}' {
            push_char(&mut out, '\\');
            push_char(&mut out, 'f');
        } else if character == '\r' {
            push_char(&mut out, '\\');
            push_char(&mut out, 'r');
        } else if (character as u32) <= 0x1f || (character as u32) == 0x7f {
            push_char(&mut out, '\\');
            push_char(&mut out, 'u');
            push_hex4(&mut out, character as u32, true);
        } else {
            push_char(&mut out, character);
        }
        proof {
            let head = text@.subrange(0, index + 1 as int);
            assert(head.drop_last() =~= text@.subrange(0, index as int));
            assert(out@ =~= before + escaped_char(character));
            assert(text@.subrange(index as int, text@.len() as int).drop_first() =~= text@.subrange(
                index + 1 as int,
                text@.len() as int,
            ));
            index = index + 1;
        }
    }
    push_char(&mut out, '"');
    out
}

/// Why text is not a basic string.
pub enum TomlFault {
    /// It does not open with a quotation mark.
    NotAString,
    /// It ends before the closing quotation mark.
    NeverCloses,
    /// A control character other than tab stands unescaped.
    Control(char),
    /// A backslash escapes a character TOML gives no escape.
    UnknownEscape(char),
    /// A backslash is the last character.
    BackslashEnds,
    /// A `\u` or `\U` is followed by too few hexadecimal digits.
    NotHexDigits,
    /// A `\u` or `\U` names no character.
    NotACharacter,
}

/// Whether `c` is a hexadecimal digit, either case.
pub open spec fn is_hex_char(c: char) -> bool {
    ('0' <= c <= '9') || ('a' <= c <= 'f') || ('A' <= c <= 'F')
}

/// The value of the hexadecimal digit `c`.
pub open spec fn hex_char_value(c: char) -> nat {
    if c <= '9' {
        (c as u32 - 0x30) as nat
    } else if c <= 'F' {
        (c as u32 - 0x41 + 10) as nat
    } else {
        (c as u32 - 0x61 + 10) as nat
    }
}

/// How many hexadecimal digits, at most `max`, open `text`.
pub open spec fn hex_run(text: Seq<char>, max: nat) -> nat
    decreases max,
{
    if max == 0 || text.len() == 0 || !is_hex_char(text[0]) {
        0
    } else {
        1 + hex_run(text.drop_first(), (max - 1) as nat)
    }
}

/// The number the hexadecimal digits `digits` spell.
pub open spec fn hex_number(digits: Seq<char>) -> nat
    decreases digits.len(),
{
    if digits.len() == 0 {
        0
    } else {
        hex_number(digits.drop_last()) * 16 + hex_char_value(digits.last())
    }
}

/// What the escape after a backslash stands for, and how many characters
/// after the backslash it takes.
pub open spec fn escape_of(after: Seq<char>) -> Result<(char, nat), TomlFault> {
    if after.len() == 0 {
        Err(TomlFault::BackslashEnds)
    } else {
        let c = after[0];
        if c == 'b' {
            Ok(('\u{8}', 1))
        } else if c == 't' {
            Ok(('\t', 1))
        } else if c == 'n' {
            Ok(('\n', 1))
        } else if c == 'f' {
            Ok(('\u{c}', 1))
        } else if c == 'r' {
            Ok(('\r', 1))
        } else if c == '"' {
            Ok(('"', 1))
        } else if c == '\\' {
            Ok(('\\', 1))
        } else if c == 'u' || c == 'U' {
            let digits: nat = if c == 'u' { 4 } else { 8 };
            let hex = after.drop_first();
            if hex_run(hex, digits) != digits {
                Err(TomlFault::NotHexDigits)
            } else {
                let value = hex_number(hex.subrange(0, digits as int));
                if value <= u32::MAX && vstd::utf8::is_scalar(value as u32) {
                    Ok(((value as u32) as char, 1 + digits))
                } else {
                    Err(TomlFault::NotACharacter)
                }
            }
        } else {
            Err(TomlFault::UnknownEscape(c))
        }
    }
}

pub proof fn lemma_hex_run_bound(text: Seq<char>, max: nat)
    ensures
        hex_run(text, max) <= max,
        hex_run(text, max) <= text.len(),
        forall|i: int| 0 <= i < hex_run(text, max) ==> is_hex_char(#[trigger] text[i]),
    decreases max,
{
    if max > 0 && text.len() > 0 && is_hex_char(text[0]) {
        lemma_hex_run_bound(text.drop_first(), (max - 1) as nat);
        let rest = text.drop_first();
        assert forall|i: int| 0 <= i < hex_run(text, max) implies is_hex_char(#[trigger] text[i]) by {
            if i > 0 {
                assert(text[i] == rest[i - 1]);
            }
        }
    }
}

pub proof fn lemma_escape_len(after: Seq<char>)
    ensures
        escape_of(after) matches Ok((_, taken)) ==> 1 <= taken <= after.len(),
{
    if after.len() > 0 {
        lemma_hex_run_bound(after.drop_first(), 4);
        lemma_hex_run_bound(after.drop_first(), 8);
    }
}

/// The text of the basic string whose quotation mark `rest` follows, and
/// how many characters it takes with its closing quotation mark.
pub open spec fn body(rest: Seq<char>) -> Result<(Seq<char>, nat), TomlFault>
    decreases rest.len(),
{
    if rest.len() == 0 {
        Err(TomlFault::NeverCloses)
    } else {
        let c = rest[0];
        if c == '"' {
            Ok((seq![], 1))
        } else if c == '\\' {
            match escape_of(rest.drop_first()) {
                Ok((escaped, taken)) => {
                    proof {
                        lemma_escape_len(rest.drop_first());
                    }
                    match body(rest.subrange(1 + taken as int, rest.len() as int)) {
                        Ok((text, length)) => Ok((seq![escaped] + text, 1 + taken + length)),
                        Err(fault) => Err(fault),
                    }
                },
                Err(fault) => Err(fault),
            }
        } else if is_control(c) && c != '\t' {
            Err(TomlFault::Control(c))
        } else {
            match body(rest.drop_first()) {
                Ok((text, length)) => Ok((seq![c] + text, 1 + length)),
                Err(fault) => Err(fault),
            }
        }
    }
}

/// The text of the basic string `text` opens with, and how many characters
/// the string takes, quotes included.
pub open spec fn basic_string(text: Seq<char>) -> Result<(Seq<char>, nat), TomlFault> {
    if text.len() == 0 || text[0] != '"' {
        Err(TomlFault::NotAString)
    } else {
        match body(text.drop_first()) {
            Ok((value, length)) => Ok((value, 1 + length)),
            Err(fault) => Err(fault),
        }
    }
}

/// What a refusal of the escape that `after` holds after its backslash
/// says.
pub open spec fn escape_message(after: Seq<char>) -> Seq<char> {
    if after.len() == 0 {
        "a backslash ends the text"@
    } else if after[0] == 'u' || after[0] == 'U' {
        let digits: nat = if after[0] == 'u' { 4 } else { 8 };
        let hex = after.drop_first();
        let run = hex_run(hex, digits);
        if run != digits {
            "\\u"@ + hex.subrange(0, run as int) + " is not "@ + decimal_chars(digits)
                + " hexadecimal digits"@
        } else {
            "\\u"@ + hex.subrange(0, digits as int) + " is not a character"@
        }
    } else {
        "an unknown escape \\"@ + seq![after[0]]
    }
}

/// What a refusal of the basic string `text` says, `rest` of its body still
/// to read.
pub open spec fn body_message(rest: Seq<char>, text: Seq<char>) -> Seq<char>
    decreases rest.len(),
{
    if rest.len() == 0 {
        debug_text(text) + " never closes"@
    } else {
        let c = rest[0];
        if c == '"' {
            seq![]
        } else if c == '\\' {
            match escape_of(rest.drop_first()) {
                Ok((_, taken)) => {
                    proof {
                        lemma_escape_len(rest.drop_first());
                    }
                    body_message(rest.subrange(1 + taken as int, rest.len() as int), text)
                },
                Err(_) => escape_message(rest.drop_first()),
            }
        } else if is_control(c) && c != '\t' {
            "an unescaped control character U+"@ + hex4_chars(c as u32, true) + " in "@
                + debug_text(text)
        } else {
            body_message(rest.drop_first(), text)
        }
    }
}

/// What a refusal of `text` as a basic string says.
pub open spec fn refusal_message(text: Seq<char>) -> Seq<char> {
    if text.len() == 0 || text[0] != '"' {
        debug_text(text) + " is not a basic string"@
    } else {
        body_message(text.drop_first(), text)
    }
}

/// The value of a hexadecimal digit.
fn hex_value(c: char) -> (value: Option<u32>)
    ensures
        value is Some <==> is_hex_char(c),
        value matches Some(v) ==> v == hex_char_value(c) && v < 16,
{
    if '0' <= c && c <= '9' {
        Some(c as u32 - 0x30)
    } else if 'a' <= c && c <= 'f' {
        Some(c as u32 - 0x61 + 10)
    } else if 'A' <= c && c <= 'F' {
        Some(c as u32 - 0x41 + 10)
    } else {
        None
    }
}

/// A refusal whose message is `first`, then `shown`, then `last`.
fn refusal(first: &str, shown: &str, last: &str) -> (error: CodecError)
    ensures
        error.message@ == first@ + shown@ + last@,
{
    let mut message = String::from_str(first);
    message.append(shown);
    message.append(last);
    CodecError::new(message)
}

/// `16` to the power `n`.
pub open spec fn pow16(n: nat) -> nat
    decreases n,
{
    if n == 0 { 1 } else { 16 * pow16((n - 1) as nat) }
}

proof fn lemma_pow16_bound(n: nat)
    requires
        n <= 8,
    ensures
        pow16(n) <= 0x1_0000_0000,
    decreases 8 - n,
{
    if n == 8 {
        reveal_with_fuel(pow16, 9);
    } else {
        lemma_pow16_bound(n + 1);
    }
}

proof fn lemma_hex_run_exact(text: Seq<char>, max: nat, count: nat)
    requires
        count <= max,
        count <= text.len(),
        forall|i: int| 0 <= i < count ==> is_hex_char(#[trigger] text[i]),
        count == max || count == text.len() || !is_hex_char(text[count as int]),
    ensures
        hex_run(text, max) == count,
    decreases count,
{
    if count > 0 {
        let rest = text.drop_first();
        assert forall|i: int| 0 <= i < count - 1 implies is_hex_char(#[trigger] rest[i]) by {
            assert(rest[i] == text[i + 1]);
        }
        if count < text.len() {
            assert(rest[count - 1] == text[count as int]);
        }
        lemma_hex_run_exact(rest, (max - 1) as nat, (count - 1) as nat);
    }
}

/// The character a `\u` (four digits) or `\U` (eight) escape names, the
/// reader past its `u`.
fn code_point(reader: &mut CharReader<'_>, digits: usize) -> (named: Result<char, CodecError>)
    requires
        digits == 4 || digits == 8,
    ensures
        final(reader).chars() == old(reader).chars(),
        ({
            let rest = old(reader).rest_chars();
            let run = hex_run(rest, digits as nat);
            let value = hex_number(rest.subrange(0, digits as int));
            match named {
                Ok(c) => {
                    &&& run == digits
                    &&& value <= u32::MAX && vstd::utf8::is_scalar(value as u32)
                    &&& c == (value as u32) as char
                    &&& old(reader).advanced(&*final(reader), digits as nat)
                },
                Err(error) => {
                    &&& run != digits ==> error.message@ == "\\u"@ + rest.subrange(0, run as int)
                        + " is not "@ + decimal_chars(digits as nat) + " hexadecimal digits"@
                    &&& run == digits ==> !(value <= u32::MAX && vstd::utf8::is_scalar(value as u32))
                        && error.message@ == "\\u"@ + rest.subrange(0, digits as int)
                        + " is not a character"@
                },
            }
        }),
{
    let ghost rest = reader.rest_chars();
    let mut hex = String::new();
    let mut value: u32 = 0;
    let mut count: usize = 0;
    proof {
        assert(rest.subrange(0, 0) =~= Seq::<char>::empty());
    }
    loop
        invariant
            count <= digits,
            digits == 4 || digits == 8,
            rest == old(reader).rest_chars(),
            old(reader).advanced(&*reader, count as nat),
            reader.rest_chars() == rest.subrange(count as int, rest.len() as int),
            forall|i: int| 0 <= i < count ==> is_hex_char(#[trigger] rest[i]),
            count <= rest.len(),
            value == hex_number(rest.subrange(0, count as int)),
            hex@ == rest.subrange(0, count as int),
            value < pow16(count as nat),
        ensures
            count <= digits,
            old(reader).advanced(&*reader, count as nat),
            value == hex_number(rest.subrange(0, count as int)),
            hex@ == rest.subrange(0, count as int),
            count == hex_run(rest, digits as nat),
        decreases digits - count,
    {
        if count == digits {
            proof {
                lemma_hex_run_exact(rest, digits as nat, count as nat);
            }
            break;
        }
        let next = reader.peek();
        let digit = match next {
            Some(c) => hex_value(c),
            None => None,
        };
        match digit {
            None => {
                proof {
                    if count < rest.len() {
                        assert(reader.rest_chars()[0] == rest[count as int]);
                        assert(reader.chars()[reader.count() as int] == rest[count as int]);
                    }
                    lemma_hex_run_exact(rest, digits as nat, count as nat);
                }
                break;
            },
            Some(v) => {
                let c = next.unwrap();
                push_char(&mut hex, c);
                reader.bump();
                proof {
                    assert(rest.subrange(0, count + 1 as int).drop_last() =~= rest.subrange(
                        0,
                        count as int,
                    ));
                    assert(value * 16 + v < pow16((count + 1) as nat)) by (nonlinear_arith)
                        requires
                            value < pow16(count as nat),
                            v < 16,
                            pow16((count + 1) as nat) == 16 * pow16(count as nat);
                    lemma_pow16_bound((count + 1) as nat);
                }
                value = value * 16 + v;
                count += 1;
                proof {
                    assert(reader.rest_chars() =~= rest.subrange(count as int, rest.len() as int));
                }
            },
        }
    }
    if count != digits {
        let mut message = String::from_str("\\u");
        message.append(hex.as_str());
        message.append(" is not ");
        message.append(crate::text::decimal(digits).as_str());
        message.append(" hexadecimal digits");
        assert(message@ =~= "\\u"@ + rest.subrange(0, count as int) + " is not "@ + decimal_chars(
            digits as nat,
        ) + " hexadecimal digits"@);
        return Err(CodecError::new(message));
    }
    match char_from_u32(value) {
        Some(c) => {
            proof {
                vstd::utf8::char_u32_cast(c, value);
            }
            Ok(c)
        },
        None => {
            let mut message = String::from_str("\\u");
            message.append(hex.as_str());
            message.append(" is not a character");
            assert(message@ =~= "\\u"@ + rest.subrange(0, digits as int) + " is not a character"@);
            Err(CodecError::new(message))
        },
    }
}

/// The character the escape after a backslash stands for, the reader past
/// the backslash.
fn escape(reader: &mut CharReader<'_>) -> (escaped: Result<char, CodecError>)
    ensures
        final(reader).chars() == old(reader).chars(),
        match escape_of(old(reader).rest_chars()) {
            Ok((c, taken)) => escaped == Ok::<char, CodecError>(c) && old(reader).advanced(
                &*final(reader),
                taken,
            ),
            Err(_) => escaped matches Err(error) && error.message@ == escape_message(
                old(reader).rest_chars(),
            ),
        },
{
    let ghost rest = reader.rest_chars();
    let next = reader.bump();
    proof {
        if next is Some {
            assert(reader.rest_chars() =~= rest.drop_first());
        }
    }
    match next {
        Some('b') => Ok('\u{8}'),
        Some('t') => Ok('\t'),
        Some('n') => Ok('\n'),
        Some('f') => Ok('\u{c}'),
        Some('r') => Ok('\r'),
        Some('"') => Ok('"'),
        Some('\\') => Ok('\\'),
        Some('u') => code_point(reader, 4),
        Some('U') => code_point(reader, 8),
        Some(other) => {
            let mut message = String::from_str("an unknown escape \\");
            push_char(&mut message, other);
            Err(CodecError::new(message))
        },
        None => {
            let message = String::from_str("a backslash ends the text");
            Err(CodecError::new(message))
        },
    }
}

/// The result of a basic string's text once `read` characters of it are
/// known to spell `prefix`.
pub open spec fn after_prefix(
    prefix: Seq<char>,
    read: nat,
    rest: Result<(Seq<char>, nat), TomlFault>,
) -> Result<(Seq<char>, nat), TomlFault> {
    match rest {
        Ok((text, length)) => Ok((prefix + text, read + length)),
        Err(fault) => Err(fault),
    }
}

/// A refusal saying `text`, quoted, then `words`.
fn quoted_refusal(text: &str, words: &str) -> (error: CodecError)
    ensures
        error.message@ == debug_text(text@) + words@,
{
    let mut message = debug_quoted(text);
    message.append(words);
    CodecError::new(message)
}

/// The basic string `text` opens with, and what follows it.
///
/// # Errors
///
/// `text` does not open with a quotation mark, the string never closes, or
/// it holds an unescaped control character other than tab, an unknown
/// escape, or a `\u` or `\U` naming no character.
pub fn unquote_prefix(text: &str) -> (result: Result<(String, &str), CodecError>)
    requires
        text.spec_bytes().len() < usize::MAX,
    ensures
        match basic_string(text@) {
            Ok((value, length)) => result matches Ok((read, after)) && read@ == value && after@
                == text@.subrange(length as int, text@.len() as int) && length <= text@.len(),
            Err(_) => result matches Err(error) && error.message@ == refusal_message(text@),
        },
{
    let mut reader = CharReader::new(text);
    if !reader.eat('"') {
        return Err(quoted_refusal(text, " is not a basic string"));
    }
    let mut out = String::new();
    proof {
        assert(reader.rest_chars() =~= text@.drop_first());
        assert(out@ + Seq::<char>::empty() =~= Seq::<char>::empty());
    }
    loop
        invariant
            reader.chars() == text@,
            1 <= reader.count() <= text@.len(),
            text@[0] == '"',
            body_message(text@.drop_first(), text@) == body_message(reader.rest_chars(), text@),
            body(text@.drop_first()) == after_prefix(
                out@,
                (reader.count() - 1) as nat,
                body(reader.rest_chars()),
            ),
        decreases text@.len() - reader.count(),
    {
        let ghost rest = reader.rest_chars();
        let ghost before = out@;
        let next = reader.bump();
        match next {
            None => {
                return Err(quoted_refusal(text, " never closes"));
            },
            Some('"') => {
                let after = reader.rest();
                return Ok((out, after));
            },
            Some('\\') => {
                proof {
                    assert(reader.rest_chars() =~= rest.drop_first());
                    lemma_escape_len(rest.drop_first());
                }
                let escaped = escape(&mut reader);
                match escaped {
                    Ok(c) => {
                        push_char(&mut out, c);
                        proof {
                            let taken = escape_of(rest.drop_first())->Ok_0.1;
                            assert(reader.rest_chars() =~= rest.subrange(
                                1 + taken as int,
                                rest.len() as int,
                            ));
                            assert(before + seq![c] =~= out@);
                            match body(reader.rest_chars()) {
                                Ok((t, l)) => {
                                    assert(before + (seq![c] + t) =~= out@ + t);
                                },
                                Err(_) => {},
                            }
                        }
                    },
                    Err(error) => {
                        return Err(error);
                    },
                }
            },
            Some(c) => {
                if (c as u32) <= 0x1f && c != '\t' || (c as u32) == 0x7f {
                    let mut message = String::from_str("an unescaped control character U+");
                    let ghost opening = message@;
                    push_hex4(&mut message, c as u32, true);
                    message.append(" in ");
                    message.append(debug_quoted(text).as_str());
                    assert(message@ =~= opening + hex4_chars(c as u32, true) + " in "@
                        + debug_text(text@));
                    return Err(CodecError::new(message));
                }
                push_char(&mut out, c);
                proof {
                    assert(reader.rest_chars() =~= rest.drop_first());
                    match body(reader.rest_chars()) {
                        Ok((t, l)) => {
                            assert(before + (seq![c] + t) =~= out@ + t);
                        },
                        Err(_) => {},
                    }
                }
            },
        }
    }
}

/// The text of `literal`, which is one basic string and nothing else.
///
/// # Errors
///
/// `literal` is not exactly one well-formed basic string.
pub fn unquote(literal: &str) -> (result: Result<String, CodecError>)
    requires
        literal.spec_bytes().len() < usize::MAX,
    ensures
        match basic_string(literal@) {
            Ok((value, length)) => if length == literal@.len() {
                result matches Ok(read) && read@ == value
            } else {
                result matches Err(error) && error.message@ == debug_text(
                    literal@.subrange(length as int, literal@.len() as int),
                ) + " follows the basic string in "@ + debug_text(literal@)
            },
            Err(_) => result matches Err(error) && error.message@ == refusal_message(literal@),
        },
{
    let (text, after) = match unquote_prefix(literal) {
        Ok(pair) => pair,
        Err(error) => return Err(error),
    };
    if after.is_empty() {
        Ok(text)
    } else {
        let mut message = debug_quoted(after);
        message.append(" follows the basic string in ");
        message.append(debug_quoted(literal).as_str());
        Err(CodecError::new(message))
    }
}

proof fn lemma_escaped_concat(x: Seq<char>, y: Seq<char>)
    ensures
        escaped(x + y) == escaped(x) + escaped(y),
    decreases y.len(),
{
    if y.len() == 0 {
        assert(x + y =~= x);
        assert(escaped(x) + escaped(y) =~= escaped(x));
    } else {
        assert((x + y).drop_last() =~= x + y.drop_last());
        lemma_escaped_concat(x, y.drop_last());
        assert(escaped(x + y) =~= escaped(x) + escaped(y));
    }
}

proof fn lemma_hex4_digits(value: u32, upper: bool)
    requires
        value < 0x10000,
    ensures
        hex_run(hex4_chars(value, upper), 4) == 4,
        hex_number(hex4_chars(value, upper)) == value,
{
    let digits = hex4_chars(value, upper);
    let d0 = (value / 4096) % 16;
    let d1 = (value / 256) % 16;
    let d2 = (value / 16) % 16;
    let d3 = value % 16;
    assert(d0 * 4096 + d1 * 256 + d2 * 16 + d3 == value) by (bit_vector)
        requires
            value < 0x10000,
            d0 == (value / 4096) % 16,
            d1 == (value / 256) % 16,
            d2 == (value / 16) % 16,
            d3 == value % 16;
    lemma_case_digit(d0 as int, upper);
    lemma_case_digit(d1 as int, upper);
    lemma_case_digit(d2 as int, upper);
    lemma_case_digit(d3 as int, upper);
    reveal_with_fuel(hex_run, 5);
    reveal_with_fuel(hex_number, 5);
    assert(digits.drop_first().drop_first().drop_first().drop_first() =~= Seq::<char>::empty());
    assert(digits.drop_last().drop_last().drop_last().drop_last() =~= Seq::<char>::empty());
}

/// A digit under sixteen, written in either case, is a hexadecimal digit
/// of its own value.
proof fn lemma_case_digit(d: int, upper: bool)
    requires
        0 <= d < 16,
    ensures
        is_hex_char(case_hex_digit(d, upper)),
        hex_char_value(case_hex_digit(d, upper)) == d,
{
    let c: u32 = if d < 10 {
        (d + 0x30) as u32
    } else if upper {
        (d - 10 + 0x41) as u32
    } else {
        (d - 10 + 0x61) as u32
    };
    assert(case_hex_digit(d, upper) as u32 == c);
}

/// A `\u` escape, its four digits in either case, reads as the character
/// they spell.
proof fn lemma_short_escape(value: u32, upper: bool, after: Seq<char>)
    requires
        value < 0x10000,
        vstd::utf8::is_scalar(value),
    ensures
        escape_of(seq!['u'] + hex4_chars(value, upper) + after) == Ok::<(char, nat), TomlFault>(
            (value as char, 5),
        ),
{
    let hex = hex4_chars(value, upper);
    let e = seq!['u'] + hex + after;
    lemma_hex4_digits(value, upper);
    assert(e.drop_first().subrange(0, 4) =~= hex);
    assert(hex_run(e.drop_first(), 4) == 4) by {
        reveal_with_fuel(hex_run, 5);
        assert(e.drop_first()[0] == hex[0]);
        assert(e.drop_first().drop_first()[0] == hex[1]);
        assert(e.drop_first().drop_first().drop_first()[0] == hex[2]);
        assert(e.drop_first().drop_first().drop_first().drop_first()[0] == hex[3]);
        assert(is_hex_char(hex[0]) && is_hex_char(hex[1]) && is_hex_char(hex[2]) && is_hex_char(hex[3]));
    }
}

/// A `\u` escape of a control character reads back as the character.
proof fn lemma_control_escape(c: char, after: Seq<char>)
    requires
        is_control(c),
    ensures
        escape_of(seq!['u'] + hex4_chars(c as u32, true) + after) == Ok::<(char, nat), TomlFault>(
            (c, 5),
        ),
{
    vstd::utf8::char_is_scalar(c);
    vstd::utf8::char_u32_cast(c, c as u32);
    lemma_short_escape(c as u32, true, after);
}

/// One character written as a basic string writes it reads back as itself.
proof fn lemma_body_step(c: char, after: Seq<char>, text: Seq<char>, length: nat)
    requires
        body(after) == Ok::<(Seq<char>, nat), TomlFault>((text, length)),
    ensures
        body(escaped_char(c) + after) == Ok::<(Seq<char>, nat), TomlFault>(
            (seq![c] + text, escaped_char(c).len() + length),
        ),
{
    let head = escaped_char(c);
    let all = head + after;
    if head.len() == 1 {
        assert(all.drop_first() =~= after);
    } else {
        assert(all[0] == '\\');
        if c == '"' || c == '\\' || c == '\u{8}' || c == '\t' || c == '\n' || c == '\u{c}' || c
            == '\r' {
            assert(escape_of(all.drop_first()) == Ok::<(char, nat), TomlFault>((c, 1)));
        } else {
            assert(all.drop_first() =~= seq!['u'] + hex4_chars(c as u32, true) + after);
            lemma_control_escape(c, after);
        }
        assert(all.subrange(head.len() as int, all.len() as int) =~= after);
    }
}

/// The body of a quoted text reads back as the text.
proof fn lemma_body_of_escaped(text: Seq<char>, rest: Seq<char>)
    ensures
        body(escaped(text) + seq!['"'] + rest) == Ok::<(Seq<char>, nat), TomlFault>(
            (text, escaped(text).len() + 1),
        ),
    decreases text.len(),
{
    if text.len() == 0 {
        assert(escaped(text) =~= Seq::<char>::empty());
        assert(escaped(text) + seq!['"'] + rest =~= seq!['"'] + rest);
        assert((seq!['"'] + rest)[0] == '"');
        assert(text =~= Seq::<char>::empty());
    } else {
        let c = text[0];
        let tail = text.drop_first();
        assert(seq![c] + tail =~= text);
        lemma_escaped_concat(seq![c], tail);
        assert(seq![c].drop_last() =~= Seq::<char>::empty());
        assert(escaped(Seq::<char>::empty()) =~= Seq::<char>::empty());
        assert(escaped(seq![c]) =~= escaped_char(c));
        lemma_body_of_escaped(tail, rest);
        let after = escaped(tail) + seq!['"'] + rest;
        assert(escaped(text) + seq!['"'] + rest =~= escaped_char(c) + after);
        lemma_body_step(c, after, tail, escaped(tail).len() + 1);
        assert(escaped(text).len() == escaped_char(c).len() + escaped(tail).len());
    }
}

/// Quoting and reading back give the text: whatever follows it, the basic
/// string `quote` writes for `text` reads back as exactly `text`, and ends
/// where the quoted string ends.
pub proof fn law_unquote_inverts_quote(text: Seq<char>, rest: Seq<char>)
    ensures
        basic_string(quoted(text) + rest) == Ok::<(Seq<char>, nat), TomlFault>(
            (text, quoted(text).len()),
        ),
{
    lemma_body_of_escaped(text, rest);
    let all = quoted(text) + rest;
    assert(all.drop_first() =~= escaped(text) + seq!['"'] + rest);
}

/// A `\u` escape names the character its four hexadecimal digits spell,
/// in lower case as in upper: in any basic string's body, the escape then
/// whatever follows reads as that character then what follows reads as.
pub proof fn law_short_escapes_read_in_either_case(
    value: u32,
    upper: bool,
    rest: Seq<char>,
    text: Seq<char>,
    length: nat,
)
    requires
        value < 0x10000,
        vstd::utf8::is_scalar(value),
        body(rest) == Ok::<(Seq<char>, nat), TomlFault>((text, length)),
    ensures
        body(seq!['\\', 'u'] + hex4_chars(value, upper) + rest) == Ok::<
            (Seq<char>, nat),
            TomlFault,
        >((seq![value as char] + text, 6 + length)),
{
    let all = seq!['\\', 'u'] + hex4_chars(value, upper) + rest;
    assert(all.drop_first() =~= seq!['u'] + hex4_chars(value, upper) + rest);
    lemma_short_escape(value, upper, rest);
    assert(all[0] == '\\');
    assert(all.subrange(6, all.len() as int) =~= rest);
}

} // verus!

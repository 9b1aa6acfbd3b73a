//! XML 1.0 character data: escaping what a writer puts between tags and in
//! attribute values, and unescaping what a reader takes out.
//!
//! Unescaping is strict. The five predefined entities and decimal and
//! hexadecimal character references are read; anything else is refused
//! rather than passed through, because text read one way by one reader and
//! another way by the next is how two gates came to disagree about one
//! name.

use crate::text::{
    chars_of, char_from_u32, decimal_chars, hex_chars, lower_hex_digit, push_char, push_range,
};
use crate::CodecError;
use vstd::prelude::*;
use vstd::std_specs::iter::IteratorSpec;
use vstd::string::StringExecFns;

verus! {

broadcast use vstd::string::group_string_axioms;

/// How `c` is written as element content.
pub open spec fn escaped_char(c: char) -> Seq<char> {
    if c == '&' {
        seq!['&', 'a', 'm', 'p', ';']
    } else if c == '<' {
        seq!['&', 'l', 't', ';']
    } else if c == '>' {
        seq!['&', 'g', 't', ';']
    } else if c == '"' {
        seq!['&', 'q', 'u', 'o', 't', ';']
    } else {
        seq![c]
    }
}

/// `text` as element content.
pub open spec fn escaped(text: Seq<char>) -> Seq<char>
    decreases text.len(),
{
    if text.len() == 0 {
        seq![]
    } else {
        escaped(text.drop_last()) + escaped_char(text.last())
    }
}

/// `text` as element content: `&`, `<` and `>` escaped, and `"` too, so
/// the same text is safe inside a quoted attribute.
pub fn escape(text: &str) -> (out: String)
    ensures
        out@ == escaped(text@),
{
    let mut out = String::new();
    let mut chars = text.chars();
    let ghost mut index: nat = 0;
    loop
        invariant
            index <= text@.len(),
            chars.remaining() == text@.subrange(index as int, text@.len() as int),
            out@ == escaped(text@.subrange(0, index as int)),
        ensures
            out@ == escaped(text@),
        decreases text@.len() - index,
    {
        let character = match chars.next() {
            Some(character) => character,
            None => {
                assert(text@.subrange(0, index as int) =~= text@);
                break;
            },
        };
        let ghost before = out@;
        if character == '&' {
            out.append("&amp;");
        } else if character == '<' {
            out.append("&lt;");
        } else if character == '>' {
            out.append("&gt;");
        } else if character == '"' {
            out.append("&quot;");
        } else {
            push_char(&mut out, character);
        }
        proof {
            reveal_strlit("&amp;");
            reveal_strlit("&lt;");
            reveal_strlit("&gt;");
            reveal_strlit("&quot;");
            let head = text@.subrange(0, index + 1 as int);
            assert(head.drop_last() =~= text@.subrange(0, index as int));
            assert(out@ =~= before + escaped_char(character));
            assert(text@.subrange(index as int, text@.len() as int).drop_first()
                =~= text@.subrange(index + 1 as int, text@.len() as int));
            index = index + 1;
        }
    }
    out
}

/// Why character data is not XML's.
#[derive(Clone, Copy, PartialEq, Eq, Structural)]
pub enum XmlFault {
    /// An `&` with no `;` after it.
    Unterminated,
    /// A character reference that names no character.
    NoCharacter,
    /// An entity XML does not predefine.
    Undefined,
}

/// A refusal: its fault, and the entity or reference it names (empty for
/// an `&` that is never closed).
pub type Refused = (XmlFault, Seq<char>);

/// What a refusal says, in full.
pub open spec fn refusal_message(refused: Refused) -> Seq<char> {
    match refused.0 {
        XmlFault::Unterminated => "an XML entity is not terminated"@,
        XmlFault::NoCharacter => "the XML character reference '&"@ + refused.1 + ";' "@
            + "names no character"@,
        XmlFault::Undefined => "the XML holds the entity '&"@ + refused.1 + ";', "@
            + "which XML does not predefine"@,
    }
}

/// The index of the first `c` in `text`.
pub open spec fn index_of(text: Seq<char>, c: char) -> Option<nat>
    decreases text.len(),
{
    if text.len() == 0 {
        None
    } else if text[0] == c {
        Some(0)
    } else {
        match index_of(text.drop_first(), c) {
            Some(i) => Some(i + 1),
            None => None,
        }
    }
}

/// The value of `c` as a digit of `radix` (10 or 16).
pub open spec fn digit_value(c: char, radix: nat) -> Option<nat> {
    if '0' <= c <= '9' {
        Some((c as u32 - 0x30) as nat)
    } else if radix == 16 && 'a' <= c <= 'f' {
        Some((c as u32 - 0x61 + 10) as nat)
    } else if radix == 16 && 'A' <= c <= 'F' {
        Some((c as u32 - 0x41 + 10) as nat)
    } else {
        None
    }
}

/// The number the digits `digits` spell in `radix`.
pub open spec fn number(digits: Seq<char>, radix: nat) -> nat
    decreases digits.len(),
{
    if digits.len() == 0 {
        0
    } else {
        number(digits.drop_last(), radix) * radix + digit_value(digits.last(), radix)->0
    }
}

/// The `u32` the text `digits` spells in `radix`: one digit or more and
/// nothing else (no sign), no overflow.
pub open spec fn parsed(digits: Seq<char>, radix: nat) -> Option<u32> {
    if digits.len() == 0 {
        None
    } else if exists|i: int| 0 <= i < digits.len() && (#[trigger] digit_value(digits[i], radix)) is None {
        None
    } else if number(digits, radix) > u32::MAX {
        None
    } else {
        Some(number(digits, radix) as u32)
    }
}

/// The character a character reference with `digits` in `radix` names.
pub open spec fn reference(digits: Seq<char>, radix: nat) -> Result<char, XmlFault> {
    match parsed(digits, radix) {
        Some(value) => if vstd::utf8::is_scalar(value) {
            Ok(value as char)
        } else {
            Err(XmlFault::NoCharacter)
        },
        None => Err(XmlFault::NoCharacter),
    }
}

/// What one entity or character reference, without its `&` and `;`,
/// stands for.
pub open spec fn entity_of(name: Seq<char>) -> Result<char, XmlFault> {
    if name == seq!['l', 't'] {
        Ok('<')
    } else if name == seq!['g', 't'] {
        Ok('>')
    } else if name == seq!['a', 'm', 'p'] {
        Ok('&')
    } else if name == seq!['q', 'u', 'o', 't'] {
        Ok('"')
    } else if name == seq!['a', 'p', 'o', 's'] {
        Ok('\'')
    } else if name.len() >= 2 && name[0] == '#' && (name[1] == 'x' || name[1] == 'X') {
        reference(name.subrange(2, name.len() as int), 16)
    } else if name.len() >= 1 && name[0] == '#' {
        reference(name.drop_first(), 10)
    } else {
        Err(XmlFault::Undefined)
    }
}

pub proof fn lemma_index_of_bound(text: Seq<char>, c: char)
    ensures
        index_of(text, c) matches Some(i) ==> i < text.len() && text[i as int] == c,
        index_of(text, c) matches Some(i) ==> forall|j: int| 0 <= j < i ==> text[j] != c,
        index_of(text, c) is None ==> forall|j: int| 0 <= j < text.len() ==> text[j] != c,
    decreases text.len(),
{
    if text.len() > 0 {
        lemma_index_of_bound(text.drop_first(), c);
        if text[0] != c {
            assert forall|j: int| 0 < j < text.len() implies text[j] == text.drop_first()[j - 1] by {}
        }
    }
}

/// Character data as text, every entity and character reference replaced.
pub open spec fn unescaped(text: Seq<char>) -> Result<Seq<char>, Refused>
    decreases text.len(),
{
    match index_of(text, '&') {
        None => Ok(text),
        Some(i) => {
            let after = text.subrange(i + 1 as int, text.len() as int);
            match index_of(after, ';') {
                None => Err((XmlFault::Unterminated, Seq::<char>::empty())),
                Some(j) => match entity_of(after.subrange(0, j as int)) {
                    Err(fault) => Err((fault, after.subrange(0, j as int))),
                    Ok(c) => {
                        proof {
                            lemma_index_of_bound(text, '&');
                            lemma_index_of_bound(after, ';');
                        }
                        match unescaped(after.subrange(j + 1 as int, after.len() as int)) {
                            Ok(rest) => Ok(text.subrange(0, i as int) + seq![c] + rest),
                            Err(fault) => Err(fault),
                        }
                    },
                },
            }
        },
    }
}

proof fn lemma_number_grows(digits: Seq<char>, k: int, radix: nat)
    requires
        0 <= k <= digits.len(),
        radix >= 1,
    ensures
        number(digits.subrange(0, k), radix) <= number(digits, radix),
    decreases digits.len(),
{
    if k < digits.len() {
        let shorter = digits.drop_last();
        assert(shorter.subrange(0, k) =~= digits.subrange(0, k));
        lemma_number_grows(shorter, k, radix);
        let n = number(shorter, radix);
        assert(n <= n * radix + digit_value(digits.last(), radix)->0) by (nonlinear_arith)
            requires radix >= 1;
    } else {
        assert(digits.subrange(0, k) =~= digits);
    }
}

/// The value of `c` as a digit of `radix`.
fn digit(c: char, radix: u32) -> (value: Option<u64>)
    requires
        radix == 10 || radix == 16,
    ensures
        value matches Some(v) ==> digit_value(c, radix as nat) == Some(v as nat) && v < radix,
        value is None ==> digit_value(c, radix as nat) is None,
{
    if '0' <= c && c <= '9' {
        Some((c as u32 - 0x30) as u64)
    } else if radix == 16 && 'a' <= c && c <= 'f' {
        Some((c as u32 - 0x61 + 10) as u64)
    } else if radix == 16 && 'A' <= c && c <= 'F' {
        Some((c as u32 - 0x41 + 10) as u64)
    } else {
        None
    }
}

/// The number `chars[from..to]` spells in `radix`: digits only, no sign.
fn parse_number(chars: &Vec<char>, from: usize, to: usize, radix: u32) -> (value: Option<u32>)
    requires
        from <= to <= chars@.len(),
        radix == 10 || radix == 16,
    ensures
        value == parsed(chars@.subrange(from as int, to as int), radix as nat),
{
    let ghost digits = chars@.subrange(from as int, to as int);
    let start = from;
    let ghost body = chars@.subrange(start as int, to as int);
    if start == to {
        return None;
    }
    let mut value: u64 = 0;
    let mut index = start;
    proof {
        assert(body.subrange(0, 0) =~= Seq::<char>::empty());
    }
    while index < to
        invariant
            start <= index <= to,
            to <= chars@.len(),
            radix == 10 || radix == 16,
            body == chars@.subrange(start as int, to as int),
            body == digits,
            digits == chars@.subrange(from as int, to as int),
            value == number(body.subrange(0, index - start), radix as nat),
            value <= u32::MAX,
            forall|i: int| 0 <= i < index - start ==> (#[trigger] digit_value(body[i], radix as nat)) is Some,
        decreases to - index,
    {
        let d = match digit(chars[index], radix) {
            Some(d) => d,
            None => {
                proof {
                    let i = index - start;
                    assert(0 <= i < body.len() && digit_value(body[i], radix as nat) is None);
                    assert(body.len() > 0);
                    assert(exists|j: int| 0 <= j < body.len() && (#[trigger] digit_value(body[j], radix as nat)) is None);
                    assert(parsed(digits, radix as nat) is None);
                }
                return None;
            },
        };
        proof {
            let longer = body.subrange(0, index - start + 1);
            assert(longer.drop_last() =~= body.subrange(0, index - start));
            assert(value * radix + d <= 0xffff_ffff * 16 + 15) by (nonlinear_arith)
                requires value <= 0xffff_ffff, radix <= 16, d < 16;
        }
        value = value * (radix as u64) + d;
        index += 1;
        if value > 0xffff_ffff {
            proof {
                lemma_number_grows(body, index - start, radix as nat);
                assert(number(body, radix as nat) > u32::MAX);
                assert(parsed(digits, radix as nat) is None);
            }
            return None;
        }
    }
    assert(body.subrange(0, index - start) =~= body);
    Some(value as u32)
}

/// Whether `chars[from..to]` is exactly `word`.
fn is_word(chars: &Vec<char>, from: usize, to: usize, word: &[char]) -> (same: bool)
    requires
        from <= to <= chars@.len(),
    ensures
        same == (chars@.subrange(from as int, to as int) == word@),
{
    if to - from != word.len() {
        return false;
    }
    let mut index: usize = 0;
    while index < word.len()
        invariant
            index <= word@.len(),
            to - from == word@.len(),
            from <= to <= chars@.len(),
            forall|j: int| 0 <= j < index ==> chars@[from + j] == word@[j],
        decreases word.len() - index,
    {
        if chars[from + index] != word[index] {
            assert(chars@.subrange(from as int, to as int)[index as int] != word@[index as int]);
            return false;
        }
        index += 1;
    }
    assert(chars@.subrange(from as int, to as int) =~= word@);
    true
}

/// A refusal naming the entity `chars[from..to]` between `first` and `last`.
fn naming_refusal(
    chars: &Vec<char>,
    from: usize,
    to: usize,
    first: &str,
    between: &str,
    last: &str,
) -> (error: CodecError)
    requires
        from <= to <= chars@.len(),
    ensures
        error.message@ == first@ + chars@.subrange(from as int, to as int) + between@ + last@,
{
    let mut message = String::from_str(first);
    push_range(&mut message, chars, from, to);
    message.append(between);
    message.append(last);
    CodecError::new(message)
}

/// What the entity or character reference `chars[from..to]`, without its
/// `&` and `;`, stands for.
fn entity(chars: &Vec<char>, from: usize, to: usize) -> (named: Result<char, CodecError>)
    requires
        from <= to <= chars@.len(),
    ensures
        match entity_of(chars@.subrange(from as int, to as int)) {
            Ok(c) => named == Ok::<char, CodecError>(c),
            Err(fault) => named matches Err(e) && e.message@ == refusal_message(
                (fault, chars@.subrange(from as int, to as int)),
            ),
        },
{
    let ghost name = chars@.subrange(from as int, to as int);
    if is_word(chars, from, to, &['l', 't']) {
        return Ok('<');
    }
    if is_word(chars, from, to, &['g', 't']) {
        return Ok('>');
    }
    if is_word(chars, from, to, &['a', 'm', 'p']) {
        return Ok('&');
    }
    if is_word(chars, from, to, &['q', 'u', 'o', 't']) {
        return Ok('"');
    }
    if is_word(chars, from, to, &['a', 'p', 'o', 's']) {
        return Ok('\'');
    }
    let hex = to - from >= 2 && chars[from] == '#' && (chars[from + 1] == 'x' || chars[from + 1] == 'X');
    let decimal = !hex && to - from >= 1 && chars[from] == '#';
    if !hex && !decimal {
        return Err(naming_refusal(
            chars,
            from,
            to,
            "the XML holds the entity '&",
            ";', ",
            "which XML does not predefine",
        ));
    }
    let parsed = if hex {
        proof {
            assert(name.subrange(2, name.len() as int) =~= chars@.subrange(from + 2, to as int));
        }
        parse_number(chars, from + 2, to, 16)
    } else {
        proof {
            assert(name.drop_first() =~= chars@.subrange(from + 1, to as int));
        }
        parse_number(chars, from + 1, to, 10)
    };
    let found = match parsed {
        Some(value) => char_from_u32(value),
        None => None,
    };
    match found {
        Some(c) => {
            proof {
                vstd::utf8::char_u32_cast(c, parsed.unwrap());
            }
            Ok(c)
        },
        None => Err(naming_refusal(
            chars,
            from,
            to,
            "the XML character reference '&",
            ";' ",
            "names no character",
        )),
    }
}

/// The index of the first `wanted` in `chars[from..]`, counted from `from`.
fn find(chars: &Vec<char>, from: usize, wanted: char) -> (found: Option<usize>)
    requires
        from <= chars@.len(),
    ensures
        match index_of(chars@.subrange(from as int, chars@.len() as int), wanted) {
            Some(i) => found matches Some(f) && f == from + i,
            None => found is None,
        },
{
    let ghost rest = chars@.subrange(from as int, chars@.len() as int);
    let mut index = from;
    while index < chars.len() && chars[index] != wanted
        invariant
            from <= index <= chars@.len(),
            rest == chars@.subrange(from as int, chars@.len() as int),
            index_of(rest, wanted) == match index_of(
                chars@.subrange(index as int, chars@.len() as int),
                wanted,
            ) {
                Some(i) => Some((i + index - from) as nat),
                None => None::<nat>,
            },
        decreases chars.len() - index,
    {
        assert(chars@.subrange(index as int, chars@.len() as int).drop_first() =~= chars@.subrange(
            index + 1,
            chars@.len() as int,
        ));
        index += 1;
    }
    if index == chars.len() {
        assert(chars@.subrange(index as int, chars@.len() as int) =~= Seq::<char>::empty());
        None
    } else {
        Some(index)
    }
}

/// `result` with `prefix` before the text it holds.
pub open spec fn with_prefix(
    prefix: Seq<char>,
    result: Result<Seq<char>, Refused>,
) -> Result<Seq<char>, Refused> {
    match result {
        Ok(text) => Ok(prefix + text),
        Err(fault) => Err(fault),
    }
}

/// Past the next entity of `chars[at..]`, or to its end where none
/// remains, what it spells appended to `out`; where the run continues.
fn unescape_step(chars: &Vec<char>, at: usize, out: &mut String) -> (step: Result<Option<usize>, CodecError>)
    requires
        at <= chars@.len(),
    ensures
        ({
            let rest = unescaped(chars@.subrange(at as int, chars@.len() as int));
            match step {
                Ok(None) => with_prefix(old(out)@, rest) == Ok::<Seq<char>, Refused>(final(out)@),
                Ok(Some(next)) => {
                    &&& at < next <= chars@.len()
                    &&& with_prefix(old(out)@, rest) == with_prefix(
                        final(out)@,
                        unescaped(chars@.subrange(next as int, chars@.len() as int)),
                    )
                },
                Err(error) => rest matches Err(refused) && error.message@ == refusal_message(
                    refused,
                ),
            }
        }),
{
    let ghost rest = chars@.subrange(at as int, chars@.len() as int);
    let length = chars.len();
    let amp = match find(chars, at, '&') {
        None => {
            push_range(out, chars, at, chars.len());
            return Ok(None);
        },
        Some(amp) => amp,
    };
    proof {
        lemma_index_of_bound(rest, '&');
        let after = rest.subrange((amp - at) + 1, rest.len() as int);
        assert(after =~= chars@.subrange(amp + 1, chars@.len() as int));
    }
    let ghost before = out@;
    push_range(out, chars, at, amp);
    let semi = match find(chars, amp + 1, ';') {
        None => {
            let message = String::from_str("an XML entity is not terminated");
            return Err(CodecError::new(message));
        },
        Some(semi) => semi,
    };
    let ghost after = chars@.subrange(amp + 1, chars@.len() as int);
    proof {
        lemma_index_of_bound(after, ';');
        assert(after.subrange(0, semi - (amp + 1)) =~= chars@.subrange(amp + 1, semi as int));
    }
    let c = match entity(chars, amp + 1, semi) {
        Ok(c) => c,
        Err(error) => {
            return Err(error);
        },
    };
    push_char(out, c);
    proof {
        assert(after.subrange(semi - (amp + 1) + 1, after.len() as int) =~= chars@.subrange(
            semi + 1,
            chars@.len() as int,
        ));
        assert(rest.subrange(0, amp - at) =~= chars@.subrange(at as int, amp as int));
        match unescaped(chars@.subrange(semi + 1, chars@.len() as int)) {
            Ok(tail) => {
                assert(before + (chars@.subrange(at as int, amp as int) + seq![c] + tail) =~= out@
                    + tail);
            },
            Err(_) => {},
        }
    }
    Ok(Some(semi + 1))
}

/// Character data as text: the five predefined entities and every
/// character reference replaced by what it stands for.
///
/// # Errors
///
/// An `&` with no `;` after it, an entity XML does not predefine, or a
/// character reference that names no character.
pub fn unescape(text: &str) -> (result: Result<String, CodecError>)
    ensures
        match unescaped(text@) {
            Ok(value) => result matches Ok(read) && read@ == value,
            Err(refused) => result matches Err(e) && e.message@ == refusal_message(refused),
        },
{
    let chars = chars_of(text);
    let mut out = String::new();
    let mut at: usize = 0;
    proof {
        assert(chars@.subrange(0, chars@.len() as int) =~= text@);
        match unescaped(text@) {
            Ok(v) => {
                assert(out@ + v =~= v);
            },
            Err(_) => {},
        }
    }
    loop
        invariant
            at <= chars@.len(),
            chars@ == text@,
            unescaped(text@) == with_prefix(
                out@,
                unescaped(chars@.subrange(at as int, chars@.len() as int)),
            ),
        decreases chars@.len() - at,
    {
        match unescape_step(&chars, at, &mut out) {
            Ok(None) => {
                return Ok(out);
            },
            Ok(Some(next)) => {
                at = next;
            },
            Err(error) => {
                return Err(error);
            },
        }
    }
}

proof fn lemma_index_of_after(prefix: Seq<char>, rest: Seq<char>, c: char)
    requires
        forall|j: int| 0 <= j < prefix.len() ==> prefix[j] != c,
    ensures
        index_of(prefix + rest, c) == match index_of(rest, c) {
            Some(i) => Some(i + prefix.len()),
            None => None::<nat>,
        },
    decreases prefix.len(),
{
    if prefix.len() > 0 {
        assert((prefix + rest).drop_first() =~= prefix.drop_first() + rest);
        lemma_index_of_after(prefix.drop_first(), rest, c);
    } else {
        assert(prefix + rest =~= rest);
    }
}

proof fn lemma_escaped_concat(x: Seq<char>, y: Seq<char>)
    ensures
        escaped(x + y) == escaped(x) + escaped(y),
    decreases y.len(),
{
    if y.len() == 0 {
        assert(x + y =~= x);
        assert(escaped(x) + escaped(y) =~= escaped(x));
    } else {
        assert((x + y).drop_last() =~= x + y.drop_last());
        lemma_escaped_concat(x, y.drop_last());
        assert(escaped(x + y) =~= escaped(x) + escaped(y));
    }
}

/// Text with no `&` reads as itself before whatever follows.
proof fn lemma_unescaped_plain(plain: Seq<char>, rest: Seq<char>)
    requires
        forall|j: int| 0 <= j < plain.len() ==> plain[j] != '&',
    ensures
        unescaped(plain + rest) == with_prefix(plain, unescaped(rest)),
{
    let all = plain + rest;
    lemma_index_of_after(plain, rest, '&');
    lemma_index_of_bound(rest, '&');
    match index_of(rest, '&') {
        None => {},
        Some(i) => {
            let k = i + plain.len();
            assert(all.subrange(k + 1 as int, all.len() as int) =~= rest.subrange(i + 1 as int, rest.len() as int));
            assert(all.subrange(0, k as int) =~= plain + rest.subrange(0, i as int));
            match unescaped(rest) {
                Ok(v) => {
                    let after = rest.subrange(i + 1 as int, rest.len() as int);
                    let j = index_of(after, ';')->0;
                    lemma_index_of_bound(after, ';');
                    let c = entity_of(after.subrange(0, j as int))->Ok_0;
                    let tail = unescaped(after.subrange(j + 1 as int, after.len() as int))->Ok_0;
                    assert(plain + rest.subrange(0, i as int) + seq![c] + tail =~= plain + (rest.subrange(
                        0,
                        i as int,
                    ) + seq![c] + tail));
                },
                Err(_) => {},
            }
        },
    }
}

/// An entity reference reads as its character before whatever follows.
proof fn lemma_unescaped_entity(name: Seq<char>, c: char, rest: Seq<char>)
    requires
        forall|j: int| 0 <= j < name.len() ==> name[j] != ';',
        entity_of(name) == Ok::<char, XmlFault>(c),
    ensures
        unescaped(seq!['&'] + name + seq![';'] + rest) == with_prefix(seq![c], unescaped(rest)),
{
    let all = seq!['&'] + name + seq![';'] + rest;
    assert(index_of(all, '&') == Some(0nat));
    let after = all.subrange(1, all.len() as int);
    assert(after =~= name + (seq![';'] + rest));
    lemma_index_of_after(name, seq![';'] + rest, ';');
    assert(index_of(seq![';'] + rest, ';') == Some(0nat));
    assert(after.subrange(0, name.len() as int) =~= name);
    assert(after.subrange(name.len() + 1 as int, after.len() as int) =~= rest);
    assert(all.subrange(0, 0) =~= Seq::<char>::empty());
    match unescaped(rest) {
        Ok(v) => {
            assert(Seq::<char>::empty() + seq![c] + v =~= seq![c] + v);
        },
        Err(_) => {},
    }
}

/// The entities `escape` writes name the characters they stand for.
proof fn lemma_named_entities()
    ensures
        entity_of(seq!['a', 'm', 'p']) == Ok::<char, XmlFault>('&'),
        entity_of(seq!['l', 't']) == Ok::<char, XmlFault>('<'),
        entity_of(seq!['g', 't']) == Ok::<char, XmlFault>('>'),
        entity_of(seq!['q', 'u', 'o', 't']) == Ok::<char, XmlFault>('"'),
{
    assert(seq!['a', 'm', 'p'] != seq!['l', 't']);
    assert(seq!['a', 'm', 'p'] != seq!['g', 't']);
    assert(seq!['g', 't'] != seq!['l', 't']);
    assert(seq!['q', 'u', 'o', 't'] != seq!['l', 't']);
    assert(seq!['q', 'u', 'o', 't'] != seq!['g', 't']);
    assert(seq!['q', 'u', 'o', 't'] != seq!['a', 'm', 'p']);
}

/// One character as `escape` writes it reads back as itself.
proof fn lemma_escaped_char_reads(c: char, rest: Seq<char>)
    ensures
        unescaped(escaped_char(c) + rest) == with_prefix(seq![c], unescaped(rest)),
{
    lemma_named_entities();
    if c == '&' {
        assert(escaped_char(c) + rest =~= seq!['&'] + seq!['a', 'm', 'p'] + seq![';'] + rest);
        lemma_unescaped_entity(seq!['a', 'm', 'p'], c, rest);
    } else if c == '<' {
        assert(escaped_char(c) + rest =~= seq!['&'] + seq!['l', 't'] + seq![';'] + rest);
        lemma_unescaped_entity(seq!['l', 't'], c, rest);
    } else if c == '>' {
        assert(escaped_char(c) + rest =~= seq!['&'] + seq!['g', 't'] + seq![';'] + rest);
        lemma_unescaped_entity(seq!['g', 't'], c, rest);
    } else if c == '"' {
        assert(escaped_char(c) + rest =~= seq!['&'] + seq!['q', 'u', 'o', 't'] + seq![';'] + rest);
        lemma_unescaped_entity(seq!['q', 'u', 'o', 't'], c, rest);
    } else {
        lemma_unescaped_plain(seq![c], rest);
    }
}

/// Unescaping inverts escaping: `unescape` reads what `escape` writes for
/// `text` back as exactly `text`.
pub proof fn law_unescape_inverts_escape(text: Seq<char>)
    ensures
        unescaped(escaped(text)) == Ok::<Seq<char>, Refused>(text),
    decreases text.len(),
{
    if text.len() == 0 {
        assert(escaped(text) =~= Seq::<char>::empty());
        assert(text =~= Seq::<char>::empty());
        assert(index_of(Seq::<char>::empty(), '&') is None);
    } else {
        let c = text[0];
        let tail = text.drop_first();
        assert(seq![c] + tail =~= text);
        lemma_escaped_concat(seq![c], tail);
        assert(seq![c].drop_last() =~= Seq::<char>::empty());
        assert(escaped(Seq::<char>::empty()) =~= Seq::<char>::empty());
        assert(escaped(seq![c]) =~= escaped_char(c));
        law_unescape_inverts_escape(tail);
        lemma_escaped_char_reads(c, escaped(tail));
    }
}

/// `c` in upper case where it is a letter of a hexadecimal numeral.
pub open spec fn hex_upper(c: char) -> char {
    if 'a' <= c <= 'f' {
        ((c as u32) - 32) as char
    } else {
        c
    }
}

/// A digit written under sixteen reads as itself, in either case, and
/// one under ten reads as itself in decimal too.
proof fn lemma_digit_reads(d: int)
    requires
        0 <= d < 16,
    ensures
        digit_value(lower_hex_digit(d), 16) == Some(d as nat),
        digit_value(hex_upper(lower_hex_digit(d)), 16) == Some(d as nat),
        d < 10 ==> digit_value(lower_hex_digit(d), 10) == Some(d as nat),
{
    let c: u32 = if d < 10 { (d + 0x30) as u32 } else { (d - 10 + 0x61) as u32 };
    assert(lower_hex_digit(d) as u32 == c);
    if d >= 10 {
        assert(hex_upper(lower_hex_digit(d)) as u32 == c - 32);
    }
}

/// A hexadecimal numeral is digits of sixteen only, they spell the number
/// it was written for, and each reads the same in upper case.
proof fn lemma_hex_numeral_reads(n: nat)
    ensures
        hex_chars(n).len() >= 1,
        forall|i: int|
            0 <= i < hex_chars(n).len() ==> (#[trigger] digit_value(hex_chars(n)[i], 16)) is Some
                && digit_value(hex_upper(hex_chars(n)[i]), 16) == digit_value(hex_chars(n)[i], 16),
        number(hex_chars(n), 16) == n,
    decreases n,
{
    let s = hex_chars(n);
    let d = (n % 16) as int;
    lemma_digit_reads(d);
    assert(number(Seq::<char>::empty(), 16) == 0);
    if n < 16 {
        assert(s == seq![lower_hex_digit(n as int)]);
        assert(s.drop_last() =~= Seq::<char>::empty());
        assert(s.last() == lower_hex_digit(n as int));
    } else {
        lemma_hex_numeral_reads(n / 16);
        let head = hex_chars(n / 16);
        assert(s == head + seq![lower_hex_digit(d)]);
        assert(s.drop_last() =~= head);
        assert(s.last() == lower_hex_digit(d));
        assert(number(s, 16) == number(head, 16) * 16 + d);
        assert((n / 16) * 16 + n % 16 == n);
        assert forall|i: int| 0 <= i < s.len() implies (#[trigger] digit_value(s[i], 16)) is Some
            && digit_value(hex_upper(s[i]), 16) == digit_value(s[i], 16) by {
            if i < head.len() {
                assert(s[i] == head[i]);
            }
        }
    }
}

/// Digits that read alike spell one number.
proof fn lemma_number_alike(s: Seq<char>, t: Seq<char>, radix: nat)
    requires
        s.len() == t.len(),
        forall|i: int| 0 <= i < s.len() ==> digit_value(s[i], radix) == digit_value(t[i], radix),
    ensures
        number(s, radix) == number(t, radix),
    decreases s.len(),
{
    if s.len() > 0 {
        lemma_number_alike(s.drop_last(), t.drop_last(), radix);
    }
}

/// A decimal numeral is digits of ten only, and they spell its number.
proof fn lemma_decimal_numeral_reads(n: nat)
    ensures
        decimal_chars(n).len() >= 1,
        forall|i: int|
            0 <= i < decimal_chars(n).len() ==> (#[trigger] digit_value(decimal_chars(n)[i], 10)) is Some,
        number(decimal_chars(n), 10) == n,
    decreases n,
{
    let s = decimal_chars(n);
    let d = (n % 10) as int;
    lemma_digit_reads(d);
    assert(number(Seq::<char>::empty(), 10) == 0);
    if n < 10 {
        assert(s == seq![lower_hex_digit(n as int)]);
        assert(s.drop_last() =~= Seq::<char>::empty());
        assert(s.last() == lower_hex_digit(n as int));
    } else {
        lemma_decimal_numeral_reads(n / 10);
        let head = decimal_chars(n / 10);
        assert(s == head + seq![lower_hex_digit(d)]);
        assert(s.drop_last() =~= head);
        assert(s.last() == lower_hex_digit(d));
        assert(number(s, 10) == number(head, 10) * 10 + d);
        assert((n / 10) * 10 + n % 10 == n);
        assert forall|i: int| 0 <= i < s.len() implies (#[trigger] digit_value(s[i], 10)) is Some by {
            if i < head.len() {
                assert(s[i] == head[i]);
            }
        }
    }
}

/// Where `c` first stands in `s` is the index of it.
proof fn lemma_index_of_first(s: Seq<char>, c: char, k: int)
    requires
        0 <= k < s.len(),
        s[k] == c,
        forall|j: int| 0 <= j < k ==> s[j] != c,
    ensures
        index_of(s, c) == Some(k as nat),
{
    lemma_index_of_bound(s, c);
}

/// A reference `&name;` that names the character `c` reads as `c`.
proof fn lemma_reference_reads(name: Seq<char>, c: char)
    requires
        entity_of(name) == Ok::<char, XmlFault>(c),
        forall|j: int| 0 <= j < name.len() ==> name[j] != ';',
    ensures
        unescaped(seq!['&'] + name + seq![';']) == Ok::<Seq<char>, Refused>(seq![c]),
{
    let text = seq!['&'] + name + seq![';'];
    lemma_index_of_first(text, '&', 0);
    let after = text.subrange(1, text.len() as int);
    assert(after =~= name + seq![';']);
    assert forall|j: int| 0 <= j < name.len() implies after[j] != ';' by {
        assert(after[j] == name[j]);
    }
    lemma_index_of_first(after, ';', name.len() as int);
    assert(after.subrange(0, name.len() as int) =~= name);
    let rest = after.subrange(name.len() + 1int, after.len() as int);
    assert(rest =~= Seq::<char>::empty());
    assert(index_of(Seq::<char>::empty(), '&') is None);
    assert(unescaped(Seq::<char>::empty()) == Ok::<Seq<char>, Refused>(Seq::<char>::empty()));
    assert(text.subrange(0, 0) + seq![c] + Seq::<char>::empty() =~= seq![c]);
}

/// A reference whose name is `opening` then `digits`, which spell
/// `value` in `radix`, reads as the character of `value`.
proof fn lemma_numeric_reference(opening: Seq<char>, digits: Seq<char>, radix: nat, value: u32)
    requires
        (opening == seq!['#', 'x'] || opening == seq!['#', 'X']) && radix == 16 || opening == seq![
            '#',
        ] && radix == 10,
        digits.len() >= 1,
        forall|i: int| 0 <= i < digits.len() ==> (#[trigger] digit_value(digits[i], radix)) is Some,
        number(digits, radix) == value,
        vstd::utf8::is_scalar(value),
    ensures
        unescaped(seq!['&'] + opening + digits + seq![';']) == Ok::<Seq<char>, Refused>(
            seq![value as char],
        ),
{
    let name = opening + digits;
    assert(parsed(digits, radix) == Some(value));
    assert(reference(digits, radix) == Ok::<char, XmlFault>(value as char));
    assert forall|j: int| 0 <= j < name.len() implies name[j] != ';' by {
        if j >= opening.len() {
            assert(name[j] == digits[j - opening.len()]);
            assert(digit_value(digits[j - opening.len()], radix) is Some);
        }
    }
    assert(name[0] == '#');
    assert(name != seq!['l', 't'] && name != seq!['g', 't']);
    assert(name != seq!['a', 'm', 'p']);
    assert(name != seq!['q', 'u', 'o', 't'] && name != seq!['a', 'p', 'o', 's']);
    if radix == 16 {
        assert(name.subrange(2, name.len() as int) =~= digits);
    } else {
        assert(name.drop_first() =~= digits);
        assert(name[1] == digits[0]);
        assert(digit_value(digits[0], 10) is Some);
    }
    assert(entity_of(name) == Ok::<char, XmlFault>(value as char));
    lemma_reference_reads(name, value as char);
    assert(seq!['&'] + name + seq![';'] =~= seq!['&'] + opening + digits + seq![';']);
}

/// A character reference names the character its digits spell: for every
/// scalar value, `&#x` (or `&#X`) and its hexadecimal digits, lower case
/// or upper, then `;`, and `&#` and its decimal digits then `;`, each read as the
/// one character of that value.
pub proof fn law_character_references_name_their_value(value: u32)
    requires
        vstd::utf8::is_scalar(value),
    ensures
        unescaped(seq!['&', '#', 'x'] + hex_chars(value as nat) + seq![';']) == Ok::<
            Seq<char>,
            Refused,
        >(seq![value as char]),
        unescaped(
            seq!['&', '#', 'x'] + hex_chars(value as nat).map_values(|c: char| hex_upper(c))
                + seq![';'],
        ) == Ok::<Seq<char>, Refused>(seq![value as char]),
        unescaped(seq!['&', '#', 'X'] + hex_chars(value as nat) + seq![';']) == Ok::<
            Seq<char>,
            Refused,
        >(seq![value as char]),
        unescaped(seq!['&', '#'] + decimal_chars(value as nat) + seq![';']) == Ok::<
            Seq<char>,
            Refused,
        >(seq![value as char]),
{
    let n = value as nat;
    let lower = hex_chars(n);
    let upper = lower.map_values(|c: char| hex_upper(c));
    lemma_hex_numeral_reads(n);
    lemma_decimal_numeral_reads(n);
    assert forall|i: int| 0 <= i < upper.len() implies digit_value(upper[i], 16) == digit_value(
        lower[i],
        16,
    ) by {
        assert(upper[i] == hex_upper(lower[i]));
    }
    lemma_number_alike(upper, lower, 16);
    assert forall|i: int| 0 <= i < upper.len() implies (#[trigger] digit_value(upper[i], 16)) is Some by {
        assert(upper[i] == hex_upper(lower[i]));
        assert(digit_value(lower[i], 16) is Some);
    }
    lemma_numeric_reference(seq!['#', 'x'], lower, 16, value);
    lemma_numeric_reference(seq!['#', 'x'], upper, 16, value);
    lemma_numeric_reference(seq!['#', 'X'], lower, 16, value);
    assert(seq!['&'] + seq!['#', 'X'] + lower + seq![';'] =~= seq!['&', '#', 'X'] + lower + seq![';']);
    lemma_numeric_reference(seq!['#'], decimal_chars(n), 10, value);
    assert(seq!['&'] + seq!['#', 'x'] + lower + seq![';'] =~= seq!['&', '#', 'x'] + lower + seq![';']);
    assert(seq!['&'] + seq!['#', 'x'] + upper + seq![';'] =~= seq!['&', '#', 'x'] + upper + seq![';']);
    assert(seq!['&'] + seq!['#'] + decimal_chars(n) + seq![';'] =~= seq!['&', '#'] + decimal_chars(
        n,
    ) + seq![';']);
}

} // verus!

//! Unicode's encoding forms: UTF-8, UTF-16 and UTF-32, the last two in
//! either byte order, each named by the word a setting declares it with.
//!
//! Both directions are strict: bytes that are not the declared form are
//! refused, never repaired, because a replacement character would be a
//! payload silently changed. UTF-16 is [`crate::utf16`]'s; UTF-32 is
//! written here.

use crate::text::{
    char_from_u32, debug_quoted, debug_text, decimal, decimal_chars, hex_chars, push_char, push_hex,
    same_text, string_from_utf8,
};
use crate::utf16;
use crate::CodecError;
use vstd::prelude::*;
use vstd::std_specs::iter::IteratorSpec;
use vstd::string::StringExecFns;
use vstd::string::StringSliceAdditionalSpecFns;

verus! {

broadcast use vstd::string::group_string_axioms;

/// One of Unicode's encoding forms, byte order included.
#[derive(Clone, Copy, Debug, PartialEq, Eq, Structural)]
pub enum Form {
    /// UTF-8, the default wherever no form is declared.
    Utf8,
    /// UTF-16, low byte first.
    Utf16Le,
    /// UTF-16, high byte first.
    Utf16Be,
    /// UTF-32, low byte first.
    Utf32Le,
    /// UTF-32, high byte first.
    Utf32Be,
}

impl Default for Form {
    /// UTF-8, the form wherever none is declared.
    fn default() -> (form: Self)
        ensures
            form == Form::Utf8,
    {
        Form::Utf8
    }
}

/// The word a setting names `form` by.
pub open spec fn word_of(form: Form) -> Seq<char> {
    match form {
        Form::Utf8 => "utf-8"@,
        Form::Utf16Le => "utf-16le"@,
        Form::Utf16Be => "utf-16be"@,
        Form::Utf32Le => "utf-32le"@,
        Form::Utf32Be => "utf-32be"@,
    }
}

/// Every form, in the order a setting lists their words.
pub open spec fn all_forms() -> Seq<Form> {
    seq![Form::Utf8, Form::Utf16Le, Form::Utf16Be, Form::Utf32Le, Form::Utf32Be]
}

/// What a refusal of a word that names no form says after the word.
pub open spec fn unknown_words() -> Seq<char> {
    " is not a Unicode encoding form: one of "@ + word_of(Form::Utf8) + ", "@ + word_of(
        Form::Utf16Le,
    ) + ", "@ + word_of(Form::Utf16Be) + ", "@ + word_of(Form::Utf32Le) + ", "@ + word_of(
        Form::Utf32Be,
    )
}

/// The four bytes of `value`, high first where `big`.
pub open spec fn word_bytes(value: u32, big: bool) -> Seq<u8> {
    if big {
        seq![(value >> 24u32) as u8, (value >> 16u32) as u8, (value >> 8u32) as u8, value as u8]
    } else {
        seq![value as u8, (value >> 8u32) as u8, (value >> 16u32) as u8, (value >> 24u32) as u8]
    }
}

/// `text` as UTF-32: each scalar value in four bytes, high first where
/// `big`.
pub open spec fn utf32_encoded(text: Seq<char>, big: bool) -> Seq<u8>
    decreases text.len(),
{
    if text.len() == 0 {
        seq![]
    } else {
        utf32_encoded(text.drop_last(), big) + word_bytes(text.last() as u32, big)
    }
}

/// The 32-bit code units of `bytes`, four bytes each, high first where
/// `big`; trailing bytes short of four are not one.
pub open spec fn byte_words(bytes: Seq<u8>, big: bool) -> Seq<u32> {
    Seq::new(
        bytes.len() / 4,
        |i: int|
            if big {
                (bytes[4 * i] as u32) << 24u32 | (bytes[4 * i + 1] as u32) << 16u32 | (bytes[4 * i
                    + 2] as u32) << 8u32 | (bytes[4 * i + 3] as u32)
            } else {
                (bytes[4 * i + 3] as u32) << 24u32 | (bytes[4 * i + 2] as u32) << 16u32 | (bytes[4
                    * i + 1] as u32) << 8u32 | (bytes[4 * i] as u32)
            },
    )
}

/// Whether every one of `words` is a Unicode scalar value.
pub open spec fn all_scalar(words: Seq<u32>) -> bool {
    forall|i: int| 0 <= i < words.len() ==> vstd::utf8::is_scalar(#[trigger] words[i])
}

/// The characters whose scalar values `words` are.
pub open spec fn words_text(words: Seq<u32>) -> Seq<char> {
    words.map_values(|w: u32| w as char)
}

/// The text `bytes` spell as UTF-32, or `None` where they are not UTF-32.
pub open spec fn utf32_decoded(bytes: Seq<u8>, big: bool) -> Option<Seq<char>> {
    if bytes.len() % 4 == 0 && all_scalar(byte_words(bytes, big)) {
        Some(words_text(byte_words(bytes, big)))
    } else {
        None
    }
}

/// `text` as `form`'s bytes.
pub open spec fn encoded(form: Form, text: Seq<char>) -> Seq<u8> {
    match form {
        Form::Utf8 => vstd::utf8::encode_utf8(text),
        Form::Utf16Le => utf16::encoded(text, false),
        Form::Utf16Be => utf16::encoded(text, true),
        Form::Utf32Le => utf32_encoded(text, false),
        Form::Utf32Be => utf32_encoded(text, true),
    }
}

/// The text `bytes` spell in `form`, or `None` where they are not that
/// form.
pub open spec fn decoded(form: Form, bytes: Seq<u8>) -> Option<Seq<char>> {
    match form {
        Form::Utf8 => if vstd::utf8::valid_utf8(bytes) {
            Some(vstd::utf8::decode_utf8(bytes))
        } else {
            None
        },
        Form::Utf16Le | Form::Utf16Be => {
            let big = form == Form::Utf16Be;
            if bytes.len() % 2 == 0 {
                match utf16::decode_units(utf16::byte_units(bytes, big)) {
                    Ok(text) => Some(text),
                    Err(_) => None,
                }
            } else {
                None
            }
        },
        Form::Utf32Le => utf32_decoded(bytes, false),
        Form::Utf32Be => utf32_decoded(bytes, true),
    }
}

/// The first of `words` that is no scalar value.
pub open spec fn first_unscalar(words: Seq<u32>) -> u32
    decreases words.len(),
{
    if words.len() == 0 {
        0
    } else if !vstd::utf8::is_scalar(words[0]) {
        words[0]
    } else {
        first_unscalar(words.drop_first())
    }
}

/// What a refusal of `bytes` as UTF-32 says.
pub open spec fn utf32_refusal(bytes: Seq<u8>, big: bool) -> Seq<char> {
    if bytes.len() % 4 != 0 {
        decimal_chars(bytes.len()) + " bytes are not UTF-32: a code unit is four"@
    } else {
        "not UTF-32: 0x"@ + hex_chars(first_unscalar(byte_words(bytes, big)) as nat)
            + " is not a scalar value"@
    }
}

/// What a refusal of `bytes` as `form` says, where the library writes it
/// all; of UTF-8 it opens the message, std's account of the fault after it.
pub open spec fn refusal_text(form: Form, bytes: Seq<u8>) -> Seq<char> {
    match form {
        Form::Utf8 => "not UTF-8: "@,
        Form::Utf16Le | Form::Utf16Be => {
            let big = form == Form::Utf16Be;
            if bytes.len() % 2 != 0 {
                utf16::odd_refusal(bytes.len())
            } else {
                utf16::unpaired_refusal(utf16::decode_units(utf16::byte_units(bytes, big))->Err_0)
            }
        },
        Form::Utf32Le => utf32_refusal(bytes, false),
        Form::Utf32Be => utf32_refusal(bytes, true),
    }
}

impl Form {
    /// Every form, in the order a setting lists their words.
    pub fn all() -> (forms: [Form; 5])
        ensures
            forms@ == all_forms(),
    {
        let forms = [Form::Utf8, Form::Utf16Le, Form::Utf16Be, Form::Utf32Le, Form::Utf32Be];
        assert(forms@ =~= all_forms());
        forms
    }

    /// The words a setting may name a form by, in [`Form::all`]'s order:
    /// what a setting's choices list.
    pub fn words() -> (words: [&'static str; 5])
        ensures
            forall|i: int| 0 <= i < 5 ==> (#[trigger] words@[i])@ == word_of(all_forms()[i]),
    {
        let words = [
            Form::Utf8.word(),
            Form::Utf16Le.word(),
            Form::Utf16Be.word(),
            Form::Utf32Le.word(),
            Form::Utf32Be.word(),
        ];
        words
    }

    /// The form's word, as a setting names it.
    pub fn word(self) -> (word: &'static str)
        ensures
            word@ == word_of(self),
    {
        match self {
            Form::Utf8 => "utf-8",
            Form::Utf16Le => "utf-16le",
            Form::Utf16Be => "utf-16be",
            Form::Utf32Le => "utf-32le",
            Form::Utf32Be => "utf-32be",
        }
    }

    /// The form `word` names, exactly as [`Form::word`] writes it.
    ///
    /// # Errors
    /// A word that names no form.
    pub fn named(word: &str) -> (result: Result<Form, CodecError>)
        ensures
            match result {
                Ok(form) => word_of(form) == word@,
                Err(refused) => (forall|form: Form| word_of(form) != word@) && refused.message@
                    == debug_text(word@) + unknown_words(),
            },
    {
        let forms = Form::all();
        let mut i: usize = 0;
        while i < 5
            invariant
                i <= 5,
                forms@ == all_forms(),
                forall|j: int| 0 <= j < i ==> word_of(#[trigger] all_forms()[j]) != word@,
            decreases 5 - i,
        {
            let form = forms[i];
            if same_text(form.word(), word) {
                return Ok(form);
            }
            i += 1;
        }
        assert forall|form: Form| word_of(form) != word@ by {
            match form {
                Form::Utf8 => assert(all_forms()[0] == form),
                Form::Utf16Le => assert(all_forms()[1] == form),
                Form::Utf16Be => assert(all_forms()[2] == form),
                Form::Utf32Le => assert(all_forms()[3] == form),
                Form::Utf32Be => assert(all_forms()[4] == form),
            }
        }
        let mut message = debug_quoted(word);
        message.append(" is not a Unicode encoding form: one of ");
        message.append(Form::Utf8.word());
        message.append(", ");
        message.append(Form::Utf16Le.word());
        message.append(", ");
        message.append(Form::Utf16Be.word());
        message.append(", ");
        message.append(Form::Utf32Le.word());
        message.append(", ");
        message.append(Form::Utf32Be.word());
        assert(message@ =~= debug_text(word@) + unknown_words());
        Err(CodecError::new(message))
    }

    /// `text` as this form's bytes.
    pub fn encode(self, text: &str) -> (bytes: Vec<u8>)
        ensures
            bytes@ == encoded(self, text@),
    {
        match self {
            Form::Utf8 => vstd::slice::slice_to_vec(text.as_bytes()),
            Form::Utf16Le => utf16::encode(text),
            Form::Utf16Be => utf16::encode_be(text),
            Form::Utf32Le => utf32_encoding(text, false),
            Form::Utf32Be => utf32_encoding(text, true),
        }
    }

    /// The text `bytes` spell in this form, strictly.
    ///
    /// # Errors
    /// Bytes that are not this form: an invalid sequence, a length the
    /// code unit does not divide, an unpaired surrogate, a code point past
    /// U+10FFFF.
    pub fn decode(self, bytes: &[u8]) -> (result: Result<String, CodecError>)
        ensures
            match decoded(self, bytes@) {
                Some(text) => result matches Ok(read) && read@ == text,
                None => result matches Err(refused) && if self == Form::Utf8 {
                    refusal_text(self, bytes@).is_prefix_of(refused.message@)
                } else {
                    refused.message@ == refusal_text(self, bytes@)
                },
            },
    {
        match self {
            Form::Utf8 => match string_from_utf8(vstd::slice::slice_to_vec(bytes)) {
                Ok(text) => Ok(text),
                Err(error) => {
                    let mut message = String::from_str("not UTF-8: ");
                    let ghost opening = message@;
                    message.append(error.as_str());
                    assert(message@.subrange(0, opening.len() as int) =~= opening);
                    Err(CodecError::new(message))
                },
            },
            Form::Utf16Le => {
                utf16::decode(bytes)
            },
            Form::Utf16Be => {
                utf16::decode_be(bytes)
            },
            Form::Utf32Le => utf32(bytes, false),
            Form::Utf32Be => utf32(bytes, true),
        }
    }
}

/// The four bytes of `value`, high first where `big`, appended to `out`.
fn push_word(out: &mut Vec<u8>, value: u32, big: bool)
    ensures
        final(out)@ == old(out)@ + word_bytes(value, big),
{
    if big {
        out.push((value >> 24u32) as u8);
        out.push((value >> 16u32) as u8);
        out.push((value >> 8u32) as u8);
        out.push(value as u8);
    } else {
        out.push(value as u8);
        out.push((value >> 8u32) as u8);
        out.push((value >> 16u32) as u8);
        out.push((value >> 24u32) as u8);
    }
    assert(out@ =~= old(out)@ + word_bytes(value, big));
}

/// `text` as UTF-32, each code unit high first where `big`.
fn utf32_encoding(text: &str, big: bool) -> (bytes: Vec<u8>)
    ensures
        bytes@ == utf32_encoded(text@, big),
{
    let mut out: Vec<u8> = Vec::new();
    let mut chars = text.chars();
    let ghost mut index: nat = 0;
    loop
        invariant
            index <= text@.len(),
            chars.remaining() == text@.subrange(index as int, text@.len() as int),
            out@ == utf32_encoded(text@.subrange(0, index as int), big),
        ensures
            out@ == utf32_encoded(text@, big),
        decreases text@.len() - index,
    {
        let c = match chars.next() {
            Some(c) => c,
            None => {
                assert(text@.subrange(0, index as int) =~= text@);
                break;
            },
        };
        push_word(&mut out, c as u32, big);
        proof {
            let head = text@.subrange(0, index + 1 as int);
            assert(head.drop_last() =~= text@.subrange(0, index as int));
            assert(text@.subrange(index as int, text@.len() as int).drop_first() =~= text@.subrange(
                index + 1 as int,
                text@.len() as int,
            ));
            index = index + 1;
        }
    }
    out
}

/// Code unit `i` of `bytes` read as UTF-32.
fn word_at(bytes: &[u8], i: usize, big: bool) -> (word: u32)
    requires
        i < bytes@.len() / 4,
    ensures
        word == byte_words(bytes@, big)[i as int],
{
    let length = bytes.len();
    assert(4 * i + 3 < length);
    let b0 = bytes[4 * i] as u32;
    let b1 = bytes[4 * i + 1] as u32;
    let b2 = bytes[4 * i + 2] as u32;
    let b3 = bytes[4 * i + 3] as u32;
    if big {
        b0 << 24u32 | b1 << 16u32 | b2 << 8u32 | b3
    } else {
        b3 << 24u32 | b2 << 16u32 | b1 << 8u32 | b0
    }
}

/// The text `bytes` spell as UTF-32, strictly.
fn utf32(bytes: &[u8], big: bool) -> (result: Result<String, CodecError>)
    ensures
        match utf32_decoded(bytes@, big) {
            Some(text) => result matches Ok(read) && read@ == text,
            None => result matches Err(refused) && refused.message@ == utf32_refusal(bytes@, big),
        },
{
    if bytes.len() % 4 != 0 {
        let mut message = decimal(bytes.len());
        message.append(" bytes are not UTF-32: a code unit is four");
        assert(message@ =~= utf32_refusal(bytes@, big));
        return Err(CodecError::new(message));
    }
    let ghost words = byte_words(bytes@, big);
    let count = bytes.len() / 4;
    let mut out = String::new();
    let mut i: usize = 0;
    while i < count
        invariant
            i <= count,
            count == bytes@.len() / 4,
            bytes@.len() % 4 == 0,
            words == byte_words(bytes@, big),
            forall|j: int| 0 <= j < i ==> vstd::utf8::is_scalar(#[trigger] words[j]),
            out@ == words_text(words.subrange(0, i as int)),
        decreases count - i,
    {
        let point = word_at(bytes, i, big);
        match char_from_u32(point) {
            Some(c) => {
                push_char(&mut out, c);
                proof {
                    vstd::utf8::char_u32_cast(c, point);
                    assert(words_text(words.subrange(0, i + 1)) =~= words_text(
                        words.subrange(0, i as int),
                    ).push(c));
                }
            },
            None => {
                let mut message = String::from_str("not UTF-32: 0x");
                push_hex(&mut message, point as u128);
                message.append(" is not a scalar value");
                proof {
                    lemma_first_unscalar(words, i as int);
                    assert(!all_scalar(words));
                    assert(message@ =~= utf32_refusal(bytes@, big));
                }
                return Err(CodecError::new(message));
            },
        }
        i += 1;
    }
    assert(words.subrange(0, i as int) =~= words);
    Ok(out)
}

/// The first word that is no scalar value is the one at `i` where every
/// word before it is one.
proof fn lemma_first_unscalar(words: Seq<u32>, i: int)
    requires
        0 <= i < words.len(),
        !vstd::utf8::is_scalar(words[i]),
        forall|j: int| 0 <= j < i ==> vstd::utf8::is_scalar(#[trigger] words[j]),
    ensures
        first_unscalar(words) == words[i],
    decreases i,
{
    if i > 0 {
        let rest = words.drop_first();
        assert forall|j: int| 0 <= j < i - 1 implies vstd::utf8::is_scalar(#[trigger] rest[j]) by {
            assert(rest[j] == words[j + 1]);
        }
        assert(vstd::utf8::is_scalar(words[0]));
        lemma_first_unscalar(rest, i - 1);
    }
}

proof fn lemma_word_round_trip(v: u32)
    by (bit_vector)
    ensures
        ((v >> 24u32) as u8 as u32) << 24u32 | ((v >> 16u32) as u8 as u32) << 16u32 | ((v
            >> 8u32) as u8 as u32) << 8u32 | (v as u8 as u32) == v,
{
}

proof fn lemma_utf32_index(text: Seq<char>, big: bool)
    ensures
        utf32_encoded(text, big).len() == 4 * text.len(),
        forall|i: int|
            #![trigger text[i]]
            0 <= i < text.len() ==> {
                &&& utf32_encoded(text, big)[4 * i] == word_bytes(text[i] as u32, big)[0]
                &&& utf32_encoded(text, big)[4 * i + 1] == word_bytes(text[i] as u32, big)[1]
                &&& utf32_encoded(text, big)[4 * i + 2] == word_bytes(text[i] as u32, big)[2]
                &&& utf32_encoded(text, big)[4 * i + 3] == word_bytes(text[i] as u32, big)[3]
            },
    decreases text.len(),
{
    if text.len() > 0 {
        let init = text.drop_last();
        lemma_utf32_index(init, big);
        let bytes = utf32_encoded(text, big);
        assert(bytes == utf32_encoded(init, big) + word_bytes(text.last() as u32, big));
        assert forall|i: int| 0 <= i < text.len() implies {
            &&& bytes[4 * i] == word_bytes(#[trigger] text[i] as u32, big)[0]
            &&& bytes[4 * i + 1] == word_bytes(text[i] as u32, big)[1]
            &&& bytes[4 * i + 2] == word_bytes(text[i] as u32, big)[2]
            &&& bytes[4 * i + 3] == word_bytes(text[i] as u32, big)[3]
        } by {
            if i < text.len() - 1 {
                assert(init[i] == text[i]);
            }
        }
    }
}

/// UTF-32 bytes of a text read back as the scalar values of its characters.
proof fn lemma_utf32_round_trip(text: Seq<char>, big: bool)
    ensures
        utf32_decoded(utf32_encoded(text, big), big) == Some(text),
{
    lemma_utf32_index(text, big);
    let bytes = utf32_encoded(text, big);
    let words = byte_words(bytes, big);
    assert forall|i: int| 0 <= i < text.len() implies #[trigger] words[i] == text[i] as u32 by {
        let v = text[i] as u32;
        lemma_word_round_trip(v);
        assert(bytes[4 * i] == word_bytes(v, big)[0]);
    }
    assert forall|i: int| 0 <= i < words.len() implies vstd::utf8::is_scalar(#[trigger] words[i]) by {
        vstd::utf8::char_is_scalar(text[i]);
    }
    assert forall|i: int| 0 <= i < text.len() implies #[trigger] words_text(words)[i] == text[i] by {
        vstd::utf8::char_u32_cast(text[i], words[i]);
    }
    assert(words_text(words) =~= text);
}

/// Decoding inverts encoding in every form: what `encode` writes for a
/// text, `decode` in the same form reads back as exactly that text.
pub proof fn law_decode_inverts_encode(form: Form, text: Seq<char>)
    ensures
        decoded(form, encoded(form, text)) == Some(text),
{
    match form {
        Form::Utf8 => {
            vstd::utf8::encode_utf8_valid_utf8(text);
            vstd::utf8::encode_utf8_decode_utf8(text);
        },
        Form::Utf16Le => utf16::law_decode_inverts_encode(text, false),
        Form::Utf16Be => utf16::law_decode_inverts_encode(text, true),
        Form::Utf32Le => lemma_utf32_round_trip(text, false),
        Form::Utf32Be => lemma_utf32_round_trip(text, true),
    }
}

/// No two forms share a word, so [`Form::named`] of a form's word is that
/// form.
pub proof fn law_words_name_one_form(form: Form, other: Form)
    ensures
        word_of(form) == word_of(other) ==> form == other,
{
    reveal_strlit("utf-8");
    reveal_strlit("utf-16le");
    reveal_strlit("utf-16be");
    reveal_strlit("utf-32le");
    reveal_strlit("utf-32be");
    if form != other && word_of(form) == word_of(other) {
        match form {
            Form::Utf8 => assert(word_of(form).len() != word_of(other).len()),
            _ => match other {
                Form::Utf8 => assert(word_of(form).len() != word_of(other).len()),
                _ => {
                    let f = word_of(form);
                    let g = word_of(other);
                    assert(f[4] != g[4] || f[6] != g[6]);
                },
            },
        }
    }
}

proof fn lemma_word_split(a: u8, b: u8, c: u8, d: u8)
    by (bit_vector)
    ensures
        ({
            let v = (a as u32) << 24u32 | (b as u32) << 16u32 | (c as u32) << 8u32 | (d as u32);
            &&& (v >> 24u32) as u8 == a
            &&& (v >> 16u32) as u8 == b
            &&& (v >> 8u32) as u8 == c
            &&& v as u8 == d
        }),
{
}

/// UTF-32 bytes that decode are written back by the text they give.
proof fn lemma_utf32_encodes_back(bytes: Seq<u8>, big: bool)
    requires
        utf32_decoded(bytes, big) is Some,
    ensures
        utf32_encoded(utf32_decoded(bytes, big)->Some_0, big) == bytes,
{
    let words = byte_words(bytes, big);
    let text = words_text(words);
    lemma_utf32_index(text, big);
    let back = utf32_encoded(text, big);
    assert forall|k: int| 0 <= k < text.len() implies #[trigger] (text[k] as u32) == words[k] by {
        assert(vstd::utf8::is_scalar(words[k]));
    }
    assert forall|i: int| 0 <= i < bytes.len() implies back[i] == bytes[i] by {
        let k = i / 4;
        assert(0 <= k < text.len());
        assert(text[k] as u32 == words[k]);
        lemma_word_split(bytes[4 * k], bytes[4 * k + 1], bytes[4 * k + 2], bytes[4 * k + 3]);
        lemma_word_split(bytes[4 * k + 3], bytes[4 * k + 2], bytes[4 * k + 1], bytes[4 * k]);
        assert(i == 4 * k || i == 4 * k + 1 || i == 4 * k + 2 || i == 4 * k + 3);
    }
    assert(back =~= bytes);
}

/// Encoding inverts decoding in every form: bytes that `decode` accepts
/// are exactly what `encode` writes for the text it gives, so nothing is
/// repaired and no two byte strings read as one text.
pub proof fn law_encode_inverts_decode(form: Form, bytes: Seq<u8>)
    requires
        decoded(form, bytes) is Some,
    ensures
        encoded(form, decoded(form, bytes)->Some_0) == bytes,
{
    match form {
        Form::Utf8 => {
            vstd::utf8::decode_utf8_encode_utf8(bytes);
        },
        Form::Utf16Le => utf16::law_encode_inverts_decode(bytes, false),
        Form::Utf16Be => utf16::law_encode_inverts_decode(bytes, true),
        Form::Utf32Le => lemma_utf32_encodes_back(bytes, false),
        Form::Utf32Be => lemma_utf32_encodes_back(bytes, true),
    }
}

} // verus!

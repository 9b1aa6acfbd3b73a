//! Building text in verified code: the few std calls that put characters
//! into a `String` or read a scalar value back, and decimal and hexadecimal
//! numerals written by hand.

use vstd::prelude::*;
use vstd::std_specs::iter::IteratorSpec;
use vstd::string::StringExecFns;
use vstd::string::StringSliceAdditionalSpecFns;

verus! {

broadcast use vstd::string::group_string_axioms;

/// `character` appended to `out`.
///
/// Trusted: calls `String::push`, which appends the character to the end of
/// the string (std documentation).
#[verifier::external_body]
pub(crate) fn push_char(out: &mut String, character: char)
    ensures
        final(out)@ == old(out)@.push(character),
{
    out.push(character);
}

/// What Rust's `Debug` writes for the string `text`: the text between
/// double quotes, with the characters `Debug` escapes escaped. It depends on
/// the text alone.
pub uninterp spec fn debug_text(text: Seq<char>) -> Seq<char>;

/// `text` quoted as Rust's `Debug` writes a string, for a message.
///
/// Trusted: calls `format!("{:?}")` on a `str`, whose result is a function
/// of the text alone, named [`debug_text`]; how `Debug` escapes each
/// character (std's own table) is not written out.
#[verifier::external_body]
pub(crate) fn debug_quoted(text: &str) -> (quoted: String)
    ensures
        quoted@ == debug_text(text@),
{
    format!("{text:?}")
}

/// The text `bytes` spell in UTF-8, or, where they are not UTF-8, std's
/// account of the first fault.
///
/// Trusted: calls `String::from_utf8`, which returns `Ok` exactly when the
/// bytes are valid UTF-8, the string then holding those bytes (std
/// documentation); the error is turned into its `Display` text, of which
/// nothing is stated.
#[verifier::external_body]
pub(crate) fn string_from_utf8(bytes: Vec<u8>) -> (text: Result<String, String>)
    ensures
        text is Ok <==> vstd::utf8::valid_utf8(bytes@),
        text matches Ok(t) ==> t@ == vstd::utf8::decode_utf8(bytes@),
{
    match String::from_utf8(bytes) {
        Ok(text) => Ok(text),
        Err(error) => Err(error.to_string()),
    }
}

/// The character whose scalar value is `value`, or `None` for a surrogate
/// or a value past U+10FFFF.
///
/// Trusted: calls `char::from_u32`, which returns `Some` exactly for a
/// Unicode scalar value, the character with that value (std documentation).
#[verifier::external_body]
pub(crate) fn char_from_u32(value: u32) -> (character: Option<char>)
    ensures
        character is Some <==> vstd::utf8::is_scalar(value),
        character matches Some(c) ==> c as u32 == value,
{
    char::from_u32(value)
}

/// The upper-case hexadecimal digit of `value`, under sixteen.
pub open spec fn upper_hex_digit(value: int) -> char {
    if value < 10 {
        ((value + 0x30) as u32) as char
    } else {
        ((value - 10 + 0x41) as u32) as char
    }
}

/// The lower-case hexadecimal digit of `value`, under sixteen.
pub open spec fn lower_hex_digit(value: int) -> char {
    if value < 10 {
        ((value + 0x30) as u32) as char
    } else {
        ((value - 10 + 0x61) as u32) as char
    }
}

/// The digit of `value` in lower or upper case.
pub fn hex_digit(value: u8, upper: bool) -> (digit: char)
    requires
        value < 16,
    ensures
        digit == if upper { upper_hex_digit(value as int) } else { lower_hex_digit(value as int) },
{
    let digit = match value {
        0 => '0',
        1 => '1',
        2 => '2',
        3 => '3',
        4 => '4',
        5 => '5',
        6 => '6',
        7 => '7',
        8 => '8',
        9 => '9',
        10 => if upper { 'A' } else { 'a' },
        11 => if upper { 'B' } else { 'b' },
        12 => if upper { 'C' } else { 'c' },
        13 => if upper { 'D' } else { 'd' },
        14 => if upper { 'E' } else { 'e' },
        _ => if upper { 'F' } else { 'f' },
    };
    digit
}


/// The decimal numeral of `n`, most significant digit first.
pub open spec fn decimal_chars(n: nat) -> Seq<char>
    decreases n,
{
    if n < 10 {
        seq![lower_hex_digit(n as int)]
    } else {
        decimal_chars(n / 10) + seq![lower_hex_digit((n % 10) as int)]
    }
}

/// The hexadecimal numeral of `n` in lower case, most significant digit
/// first, with no leading zero.
pub open spec fn hex_chars(n: nat) -> Seq<char>
    decreases n,
{
    if n < 16 {
        seq![lower_hex_digit(n as int)]
    } else {
        hex_chars(n / 16) + seq![lower_hex_digit((n % 16) as int)]
    }
}

/// `n` in lower-case hexadecimal, appended to `out`.
pub fn push_hex(out: &mut String, n: u128)
    ensures
        final(out)@ == old(out)@ + hex_chars(n as nat),
    decreases n,
{
    if n >= 16 {
        push_hex(out, n / 16);
    }
    push_char(out, hex_digit((n % 16) as u8, false));
    assert(out@ =~= old(out)@ + hex_chars(n as nat));
}

/// `n` in decimal, appended to `out`.
pub fn push_decimal(out: &mut String, n: u64)
    ensures
        final(out)@ == old(out)@ + decimal_chars(n as nat),
    decreases n,
{
    if n >= 10 {
        push_decimal(out, n / 10);
    }
    push_char(out, hex_digit((n % 10) as u8, false));
    assert(out@ =~= old(out)@ + decimal_chars(n as nat));
}

/// `n` in decimal.
pub fn decimal(n: usize) -> (out: String)
    ensures
        out@ == decimal_chars(n as nat),
    decreases n,
{
    if n < 10 {
        let mut out = String::new();
        push_char(&mut out, hex_digit(n as u8, false));
        out
    } else {
        let mut out = decimal(n / 10);
        push_char(&mut out, hex_digit((n % 10) as u8, false));
        out
    }
}

/// The bytes of text whose every character is ASCII: one a character.
pub open spec fn ascii_bytes(chars: Seq<char>) -> Seq<u8> {
    chars.map_values(|c: char| c as u8)
}

/// The UTF-8 bytes of ASCII text are its characters, one byte each.
pub proof fn lemma_ascii_bytes(text: &str)
    requires
        vstd::utf8::is_ascii_chars(text@),
    ensures
        text.spec_bytes() == ascii_bytes(text@),
{
    vstd::utf8::is_ascii_chars_encode_utf8(text@);
    assert(text.spec_bytes() =~= ascii_bytes(text@));
}

/// The UTF-8 of two runs of text is the UTF-8 of the one then the other.
pub proof fn lemma_encode_concat(x: Seq<char>, y: Seq<char>)
    ensures
        vstd::utf8::encode_utf8(x + y) == vstd::utf8::encode_utf8(x) + vstd::utf8::encode_utf8(y),
    decreases x.len(),
{
    if x.len() > 0 {
        assert((x + y).drop_first() =~= x.drop_first() + y);
        lemma_encode_concat(x.drop_first(), y);
        assert(vstd::utf8::encode_utf8(x + y) =~= vstd::utf8::encode_utf8(x)
            + vstd::utf8::encode_utf8(y));
    } else {
        assert(x + y =~= y);
        assert(vstd::utf8::encode_utf8(x) =~= Seq::<u8>::empty());
        assert(vstd::utf8::encode_utf8(x + y) =~= vstd::utf8::encode_utf8(x)
            + vstd::utf8::encode_utf8(y));
    }
}

/// Each character takes at least one byte of UTF-8, and at most four.
pub proof fn lemma_encode_len(x: Seq<char>)
    ensures
        x.len() <= vstd::utf8::encode_utf8(x).len() <= 4 * x.len(),
    decreases x.len(),
{
    if x.len() > 0 {
        lemma_encode_len(x.drop_first());
    }
}

/// Where the UTF-8 of one run of text ends inside that of a longer one is
/// a character boundary.
pub proof fn lemma_boundary_after(x: Seq<char>, y: Seq<char>)
    ensures
        vstd::utf8::valid_utf8(vstd::utf8::encode_utf8(x + y)),
        vstd::utf8::is_char_boundary(
            vstd::utf8::encode_utf8(x + y),
            vstd::utf8::encode_utf8(x).len() as int,
        ),
    decreases x.len(),
{
    let all = x + y;
    let bytes = vstd::utf8::encode_utf8(all);
    vstd::utf8::encode_utf8_valid_utf8(all);
    if x.len() > 0 {
        assert(all.drop_first() =~= x.drop_first() + y);
        lemma_boundary_after(x.drop_first(), y);
        vstd::utf8::encode_utf8_first_scalar(all);
        assert(vstd::utf8::pop_first_scalar(bytes) =~= vstd::utf8::encode_utf8(all.drop_first()));
        lemma_encode_len(x.drop_first());
    }
}

/// The UTF-8 length of one character.
pub open spec fn char_width(c: char) -> nat {
    vstd::utf8::encode_scalar(c as u32).len()
}

/// How many bytes the UTF-8 of `c` takes.
pub fn utf8_width(c: char) -> (width: usize)
    ensures
        width == char_width(c),
        1 <= width <= 4,
{
    let v = c as u32;
    if v < 0x80 {
        1
    } else if v < 0x800 {
        2
    } else if v < 0x10000 {
        3
    } else {
        4
    }
}

/// Whether `c` has Unicode's `White_Space` property.
pub open spec fn is_white_space(c: char) -> bool {
    let v = c as u32;
    (0x09 <= v <= 0x0d) || v == 0x20 || v == 0x85 || v == 0xa0 || v == 0x1680 || (0x2000 <= v
        <= 0x200a) || v == 0x2028 || v == 0x2029 || v == 0x202f || v == 0x205f || v == 0x3000
}

/// Whether `c` is Unicode whitespace, as `char::is_whitespace` answers.
pub fn is_whitespace(c: char) -> (white: bool)
    ensures
        white == is_white_space(c),
{
    let v = c as u32;
    (0x09 <= v && v <= 0x0d) || v == 0x20 || v == 0x85 || v == 0xa0 || v == 0x1680 || (0x2000
        <= v && v <= 0x200a) || v == 0x2028 || v == 0x2029 || v == 0x202f || v == 0x205f || v
        == 0x3000
}

/// The UTF-8 of one character is its scalar's encoding.
pub proof fn lemma_encode_single(c: char)
    ensures
        vstd::utf8::encode_utf8(seq![c]) == vstd::utf8::encode_scalar(c as u32),
{
    assert(seq![c].drop_first() =~= Seq::<char>::empty());
    assert(vstd::utf8::encode_utf8(Seq::<char>::empty()) =~= Seq::<u8>::empty());
    assert(vstd::utf8::encode_utf8(seq![c]) =~= vstd::utf8::encode_scalar(c as u32));
}

/// A text's view is the decoding of its bytes.
pub proof fn lemma_view_of_bytes(text: &str, chars: Seq<char>)
    requires
        text.spec_bytes() == vstd::utf8::encode_utf8(chars),
    ensures
        text@ == chars,
{
    vstd::utf8::encode_utf8_decode_utf8(text@);
    vstd::utf8::encode_utf8_decode_utf8(chars);
}

/// The part of `text` after its first `count` characters, which take
/// `offset` bytes.
pub fn after_chars(text: &str, offset: usize, Ghost(count): Ghost<nat>) -> (rest: &str)
    requires
        count <= text@.len(),
        offset == vstd::utf8::encode_utf8(text@.subrange(0, count as int)).len(),
    ensures
        rest@ == text@.subrange(count as int, text@.len() as int),
{
    let ghost head = text@.subrange(0, count as int);
    let ghost tail = text@.subrange(count as int, text@.len() as int);
    proof {
        assert(head + tail =~= text@);
        lemma_boundary_after(head, tail);
        lemma_encode_concat(head, tail);
    }
    let (_, rest) = text.split_at(offset);
    proof {
        assert(rest.spec_bytes() =~= vstd::utf8::encode_utf8(tail));
        lemma_view_of_bytes(rest, tail);
    }
    rest
}

/// The first `count` characters of `text`, which take `offset` bytes.
pub fn before_chars(text: &str, offset: usize, Ghost(count): Ghost<nat>) -> (head: &str)
    requires
        count <= text@.len(),
        offset == vstd::utf8::encode_utf8(text@.subrange(0, count as int)).len(),
    ensures
        head@ == text@.subrange(0, count as int),
{
    let ghost first = text@.subrange(0, count as int);
    let ghost tail = text@.subrange(count as int, text@.len() as int);
    proof {
        assert(first + tail =~= text@);
        lemma_boundary_after(first, tail);
        lemma_encode_concat(first, tail);
    }
    let (head, _) = text.split_at(offset);
    proof {
        assert(head.spec_bytes() =~= vstd::utf8::encode_utf8(first));
        lemma_view_of_bytes(head, first);
    }
    head
}

/// The UTF-8 length of `chars[from..to]`.
pub fn utf8_length(chars: &Vec<char>, from: usize, to: usize) -> (length: usize)
    requires
        from <= to <= chars@.len(),
        vstd::utf8::encode_utf8(chars@).len() <= usize::MAX,
    ensures
        length == vstd::utf8::encode_utf8(chars@.subrange(from as int, to as int)).len(),
{
    let ghost all = chars@;
    proof {
        let pre = all.subrange(0, from as int);
        let post = all.subrange(from as int, all.len() as int);
        assert(pre + post =~= all);
        lemma_encode_concat(pre, post);
        let mid = all.subrange(from as int, to as int);
        let tail = all.subrange(to as int, all.len() as int);
        assert(mid + tail =~= post);
        lemma_encode_concat(mid, tail);
    }
    let mut length: usize = 0;
    let mut k = from;
    while k < to
        invariant
            from <= k <= to,
            to <= chars@.len(),
            chars@ == all,
            vstd::utf8::encode_utf8(all.subrange(from as int, to as int)).len() <= usize::MAX,
            length == vstd::utf8::encode_utf8(all.subrange(from as int, k as int)).len(),
        decreases to - k,
    {
        proof {
            let done = all.subrange(from as int, k as int);
            let more = all.subrange(from as int, k + 1);
            assert(done.push(all[k as int]) =~= more);
            assert(done + seq![all[k as int]] =~= more);
            lemma_encode_concat(done, seq![all[k as int]]);
            lemma_encode_single(all[k as int]);
            let rest = all.subrange(k + 1, to as int);
            assert(more + rest =~= all.subrange(from as int, to as int));
            lemma_encode_concat(more, rest);
        }
        length = length + utf8_width(chars[k]);
        k += 1;
    }
    length
}

/// The characters `from..to` of `text`, whose characters `chars` are.
pub fn slice_chars<'a>(text: &'a str, chars: &Vec<char>, from: usize, to: usize) -> (piece: &'a str)
    requires
        chars@ == text@,
        from <= to <= chars@.len(),
    ensures
        piece@ == text@.subrange(from as int, to as int),
{
    let bytes = text.as_bytes().len();
    let start = utf8_length(chars, 0, from);
    let count = utf8_length(chars, from, to);
    proof {
        assert(text@.subrange(0, from as int) =~= chars@.subrange(0, from as int));
    }
    let rest = after_chars(text, start, Ghost(from as nat));
    proof {
        assert(rest@.subrange(0, (to - from) as int) =~= chars@.subrange(from as int, to as int));
    }
    let piece = before_chars(rest, count, Ghost((to - from) as nat));
    assert(piece@ =~= text@.subrange(from as int, to as int));
    piece
}

/// The digit of `value` in upper or lower case.
pub open spec fn case_hex_digit(value: int, upper: bool) -> char {
    if upper { upper_hex_digit(value) } else { lower_hex_digit(value) }
}

/// The four hexadecimal digits of `value`, under `0x10000`.
pub open spec fn hex4_chars(value: u32, upper: bool) -> Seq<char> {
    seq![
        case_hex_digit(((value / 4096) % 16) as int, upper),
        case_hex_digit(((value / 256) % 16) as int, upper),
        case_hex_digit(((value / 16) % 16) as int, upper),
        case_hex_digit((value % 16) as int, upper),
    ]
}

/// `value`, under `0x10000`, as four hexadecimal digits appended to `out`.
pub fn push_hex4(out: &mut String, value: u32, upper: bool)
    requires
        value < 0x10000,
    ensures
        final(out)@ == old(out)@ + hex4_chars(value, upper),
{
    push_char(out, hex_digit(((value / 4096) % 16) as u8, upper));
    push_char(out, hex_digit(((value / 256) % 16) as u8, upper));
    push_char(out, hex_digit(((value / 16) % 16) as u8, upper));
    push_char(out, hex_digit((value % 16) as u8, upper));
    assert(out@ =~= old(out)@ + hex4_chars(value, upper));
}

/// The characters of `text`, one an element.
pub fn chars_of(text: &str) -> (chars: Vec<char>)
    ensures
        chars@ == text@,
{
    let mut out: Vec<char> = Vec::new();
    let mut iter = text.chars();
    loop
        invariant
            out@.len() <= text@.len(),
            iter.remaining() == text@.subrange(out@.len() as int, text@.len() as int),
            out@ == text@.subrange(0, out@.len() as int),
        ensures
            out@ == text@,
        decreases text@.len() - out@.len(),
    {
        match iter.next() {
            Some(c) => {
                let ghost before = out@.len();
                out.push(c);
                proof {
                    assert(text@.subrange(before as int, text@.len() as int).drop_first()
                        =~= text@.subrange(before + 1 as int, text@.len() as int));
                    assert(out@ =~= text@.subrange(0, out@.len() as int));
                }
            },
            None => {
                assert(out@ =~= text@);
                break;
            },
        }
    }
    out
}

/// Whether `a` and `b` are the same text.
pub fn same_text(a: &str, b: &str) -> (same: bool)
    ensures
        same == (a@ == b@),
{
    let x = chars_of(a);
    let y = chars_of(b);
    if x.len() != y.len() {
        return false;
    }
    let mut i: usize = 0;
    while i < x.len()
        invariant
            x@ == a@,
            y@ == b@,
            x@.len() == y@.len(),
            i <= x@.len(),
            forall|j: int| 0 <= j < i ==> x@[j] == y@[j],
        decreases x.len() - i,
    {
        if x[i] != y[i] {
            return false;
        }
        i += 1;
    }
    assert(x@ =~= y@);
    true
}

/// The characters `chars[from..to]` appended to `out`.
pub fn push_range(out: &mut String, chars: &Vec<char>, from: usize, to: usize)
    requires
        from <= to <= chars@.len(),
    ensures
        final(out)@ == old(out)@ + chars@.subrange(from as int, to as int),
{
    let mut index = from;
    while index < to
        invariant
            from <= index <= to,
            to <= chars@.len(),
            out@ == old(out)@ + chars@.subrange(from as int, index as int),
        decreases to - index,
    {
        push_char(out, chars[index]);
        index += 1;
        assert(out@ =~= old(out)@ + chars@.subrange(from as int, index as int));
    }
}

} // verus!

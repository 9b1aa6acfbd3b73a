//! MIME as every layer writes and reads it: a header's media type and its
//! parameters (RFC 2045 section 5.1), and a multipart body (RFC 2046
//! section 5.1): parts, each its headers and its bytes, between the
//! delimiters of a boundary.
//!
//! A delimiter is `--boundary` at the start of a line, followed by
//! transport padding and the line's end, or by the `--` that closes the
//! body; a part's bytes are exactly what lies between its blank line and
//! the next delimiter, less the line break that belongs to the delimiter.
//! The preamble and the epilogue are dropped. Every part is written
//! `binary`: its bytes as they are.

use crate::text::{
    chars_of, hex_chars, is_white_space, is_whitespace, push_char, push_hex, push_range,
    slice_chars,
};
use vstd::prelude::*;
use vstd::string::StringExecFns;
use vstd::string::StringSliceAdditionalSpecFns;

verus! {

broadcast use vstd::string::group_string_axioms;

/// Where `c` first stands in `s`; `s`'s length where it does not.
pub open spec fn find_char(s: Seq<char>, c: char) -> int
    decreases s.len(),
{
    if s.len() == 0 {
        0
    } else if s[0] == c {
        0
    } else {
        1 + find_char(s.drop_first(), c)
    }
}

/// `s` less its leading white space.
pub open spec fn trim_front(s: Seq<char>) -> Seq<char>
    decreases s.len(),
{
    if s.len() > 0 && is_white_space(s[0]) {
        trim_front(s.drop_first())
    } else {
        s
    }
}

/// `s` less its trailing white space.
pub open spec fn trim_back(s: Seq<char>) -> Seq<char>
    decreases s.len(),
{
    if s.len() > 0 && is_white_space(s.last()) {
        trim_back(s.drop_last())
    } else {
        s
    }
}

/// `s` less the white space at either end, as `str::trim` leaves it.
pub open spec fn trimmed(s: Seq<char>) -> Seq<char> {
    trim_back(trim_front(s))
}

/// `c` in lower case where it is an ASCII capital.
pub open spec fn ascii_lower(c: char) -> char {
    if 'A' <= c <= 'Z' {
        ((c as u32) + 32) as char
    } else {
        c
    }
}

/// `s` with every ASCII capital in lower case.
pub open spec fn lowered(s: Seq<char>) -> Seq<char> {
    s.map_values(|c: char| ascii_lower(c))
}

/// Whether `a` and `b` are the same text, ASCII case aside.
pub open spec fn same_ignoring_case(a: Seq<char>, b: Seq<char>) -> bool {
    lowered(a) == lowered(b)
}

proof fn lemma_find_char(s: Seq<char>, c: char)
    ensures
        0 <= find_char(s, c) <= s.len(),
        forall|i: int| 0 <= i < find_char(s, c) ==> s[i] != c,
        find_char(s, c) < s.len() ==> s[find_char(s, c)] == c,
    decreases s.len(),
{
    if s.len() > 0 && s[0] != c {
        lemma_find_char(s.drop_first(), c);
        assert forall|i: int| 0 <= i < find_char(s, c) implies s[i] != c by {
            if i > 0 {
                assert(s[i] == s.drop_first()[i - 1]);
            }
        }
    }
}

/// Where `c` first stands in `chars[from..to]`, counted from the start of
/// `chars`; `to` where it does not.
fn find_in(chars: &Vec<char>, from: usize, to: usize, c: char) -> (at: usize)
    requires
        from <= to <= chars@.len(),
    ensures
        at == from + find_char(chars@.subrange(from as int, to as int), c),
        from <= at <= to,
{
    let mut at = from;
    while at < to
        invariant
            from <= at <= to,
            to <= chars@.len(),
            find_char(chars@.subrange(from as int, to as int), c) == (at - from) + find_char(
                chars@.subrange(at as int, to as int),
                c,
            ),
        decreases to - at,
    {
        if chars[at] == c {
            return at;
        }
        assert(chars@.subrange(at as int, to as int).drop_first() =~= chars@.subrange(
            at + 1,
            to as int,
        ));
        at += 1;
    }
    at
}

/// The bounds of `chars[from..to]` with the white space at either end
/// taken off.
fn trim_range(chars: &Vec<char>, from: usize, to: usize) -> (bounds: (usize, usize))
    requires
        from <= to <= chars@.len(),
    ensures
        from <= bounds.0 <= bounds.1 <= to,
        chars@.subrange(bounds.0 as int, bounds.1 as int) == trimmed(
            chars@.subrange(from as int, to as int),
        ),
{
    let mut start = from;
    while start < to && is_whitespace(chars[start])
        invariant
            from <= start <= to,
            to <= chars@.len(),
            trim_front(chars@.subrange(from as int, to as int)) == trim_front(
                chars@.subrange(start as int, to as int),
            ),
        decreases to - start,
    {
        assert(chars@.subrange(start as int, to as int).drop_first() =~= chars@.subrange(
            start + 1,
            to as int,
        ));
        start += 1;
    }
    let mut end = to;
    while end > start && is_whitespace(chars[end - 1])
        invariant
            from <= start <= end <= to,
            to <= chars@.len(),
            trim_back(chars@.subrange(start as int, to as int)) == trim_back(
                chars@.subrange(start as int, end as int),
            ),
        decreases end - start,
    {
        assert(chars@.subrange(start as int, end as int).drop_last() =~= chars@.subrange(
            start as int,
            end - 1,
        ));
        end -= 1;
    }
    (start, end)
}

/// `c` in lower case where it is an ASCII capital.
fn lower(c: char) -> (lowered: char)
    ensures
        lowered == ascii_lower(c),
{
    if 'A' <= c && c <= 'Z' {
        ((c as u8) + 32) as char
    } else {
        c
    }
}

/// Whether `chars[from..to]` is `name`, ASCII case aside.
fn matches_name(chars: &Vec<char>, from: usize, to: usize, name: &Vec<char>) -> (same: bool)
    requires
        from <= to <= chars@.len(),
    ensures
        same == same_ignoring_case(chars@.subrange(from as int, to as int), name@),
{
    let ghost piece = chars@.subrange(from as int, to as int);
    if to - from != name.len() {
        proof {
            assert(lowered(piece).len() != lowered(name@).len());
        }
        return false;
    }
    let mut k: usize = 0;
    while k < name.len()
        invariant
            k <= name@.len(),
            to - from == name@.len(),
            from <= to <= chars@.len(),
            piece == chars@.subrange(from as int, to as int),
            forall|j: int| 0 <= j < k ==> ascii_lower(piece[j]) == ascii_lower(name@[j]),
        decreases name.len() - k,
    {
        if lower(chars[from + k]) != lower(name[k]) {
            proof {
                assert(lowered(piece)[k as int] != lowered(name@)[k as int]);
            }
            return false;
        }
        k += 1;
    }
    assert(lowered(piece) =~= lowered(name@));
    true
}

/// The media type of a header value without its parameters, lower-case:
/// `multipart/related` of `Multipart/Related; boundary=b1`.
pub open spec fn media_type_of(value: Seq<char>) -> Seq<char> {
    lowered(trimmed(value.subrange(0, find_char(value, ';'))))
}

/// The media type of a header value without its parameters, lower-case:
/// `multipart/related` of `Multipart/Related; boundary=b1`.
pub fn media_type(value: &str) -> (media: String)
    ensures
        media@ == media_type_of(value@),
{
    let chars = chars_of(value);
    proof {
        lemma_find_char(value@, ';');
    }
    let end = find_in(&chars, 0, chars.len(), ';');
    proof {
        assert(chars@.subrange(0, chars@.len() as int) =~= chars@);
    }
    let (start, stop) = trim_range(&chars, 0, end);
    let mut out = String::new();
    let mut k = start;
    while k < stop
        invariant
            start <= k <= stop,
            stop <= chars@.len(),
            out@ == lowered(chars@.subrange(start as int, k as int)),
        decreases stop - k,
    {
        push_char(&mut out, lower(chars[k]));
        k += 1;
        assert(out@ =~= lowered(chars@.subrange(start as int, k as int)));
    }
    out
}

/// `v` with the double quotes round it taken off, where it has both.
pub open spec fn unquoted(v: Seq<char>) -> Seq<char> {
    if v.len() >= 2 && v[0] == '"' && v.last() == '"' {
        v.subrange(1, v.len() - 1)
    } else {
        v
    }
}

/// The value of the parameter `segment` holds, where its name is `name`.
pub open spec fn parameter_in_segment(segment: Seq<char>, name: Seq<char>) -> Option<Seq<char>> {
    let eq = find_char(segment, '=');
    if eq < segment.len() && same_ignoring_case(trimmed(segment.subrange(0, eq)), name) {
        Some(unquoted(trimmed(segment.subrange(eq + 1, segment.len() as int))))
    } else {
        None
    }
}

/// The value of the first parameter named `name` among the segments
/// `rest` holds, one after each `;`.
pub open spec fn parameter_among(rest: Seq<char>, name: Seq<char>) -> Option<Seq<char>>
    decreases rest.len(),
{
    let end = find_char(rest, ';');
    match parameter_in_segment(rest.subrange(0, end), name) {
        Some(value) => Some(value),
        None => if 0 <= end < rest.len() {
            parameter_among(rest.subrange(end + 1, rest.len() as int), name)
        } else {
            None
        },
    }
}

/// The `name` parameter of a header value: the first after a `;` whose
/// name, trimmed, is `name` ASCII case aside; its value trimmed and
/// unquoted.
pub open spec fn parameter_of(value: Seq<char>, name: Seq<char>) -> Option<Seq<char>> {
    let first = find_char(value, ';');
    if first < value.len() {
        parameter_among(value.subrange(first + 1, value.len() as int), name)
    } else {
        None
    }
}

/// The `name` parameter of a media type or a header value (`charset` of
/// `text/csv; charset=utf-8`, `boundary` of a multipart type, `name` of a
/// Content-Disposition) matched without regard to case, its quotes taken
/// off. A value whose quote never closes is kept as it came.
pub fn parameter<'a>(value: &'a str, name: &str) -> (found: Option<&'a str>)
    ensures
        match parameter_of(value@, name@) {
            Some(v) => found matches Some(s) && s@ == v,
            None => found is None,
        },
{
    let chars = chars_of(value);
    let wanted = chars_of(name);
    let len = chars.len();
    proof {
        assert(chars@.subrange(0, len as int) =~= chars@);
    }
    let first = find_in(&chars, 0, len, ';');
    if first == len {
        return None;
    }
    let mut start = first + 1;
    loop
        invariant
            start <= len,
            len == chars@.len(),
            chars@ == value@,
            wanted@ == name@,
            parameter_of(value@, name@) == parameter_among(
                chars@.subrange(start as int, len as int),
                name@,
            ),
        decreases len - start,
    {
        let ghost rest = chars@.subrange(start as int, len as int);
        let end = find_in(&chars, start, len, ';');
        proof {
            assert(rest.subrange(0, end - start) =~= chars@.subrange(start as int, end as int));
            if end < len {
                assert(rest.subrange(end - start + 1, rest.len() as int) =~= chars@.subrange(
                    end + 1,
                    len as int,
                ));
            }
        }
        let ghost segment = chars@.subrange(start as int, end as int);
        let eq = find_in(&chars, start, end, '=');
        if eq < end {
            proof {
                assert(segment.subrange(0, eq - start) =~= chars@.subrange(start as int, eq as int));
                assert(segment.subrange(eq - start + 1, segment.len() as int) =~= chars@.subrange(
                    eq + 1,
                    end as int,
                ));
            }
            let (key_start, key_end) = trim_range(&chars, start, eq);
            if matches_name(&chars, key_start, key_end, &wanted) {
                let (from, to) = trim_range(&chars, eq + 1, end);
                if to - from >= 2 && chars[from] == '"' && chars[to - 1] == '"' {
                    let inner = slice_chars(value, &chars, from + 1, to - 1);
                    proof {
                        assert(inner@ =~= chars@.subrange(from as int, to as int).subrange(
                            1,
                            (to - from - 1) as int,
                        ));
                    }
                    return Some(inner);
                }
                return Some(slice_chars(value, &chars, from, to));
            }
        }
        if end == len {
            return None;
        }
        start = end + 1;
    }
}

/// A header as text: its name and its value.
pub open spec fn header_view(header: (String, String)) -> (Seq<char>, Seq<char>) {
    (header.0@, header.1@)
}

/// Where the first header named `name`, ASCII case aside, stands in
/// `headers`; their number where none is.
pub open spec fn header_index(headers: Seq<(Seq<char>, Seq<char>)>, name: Seq<char>) -> int
    decreases headers.len(),
{
    if headers.len() == 0 {
        0
    } else if same_ignoring_case(headers[0].0, name) {
        0
    } else {
        1 + header_index(headers.drop_first(), name)
    }
}

/// The value of the first header named `name`, ASCII case aside.
pub open spec fn header_of(headers: Seq<(Seq<char>, Seq<char>)>, name: Seq<char>) -> Option<
    Seq<char>,
> {
    let at = header_index(headers, name);
    if 0 <= at < headers.len() {
        Some(headers[at].1)
    } else {
        None
    }
}

/// `v` with the angle brackets round it taken off, where it has both.
pub open spec fn unbracketed(v: Seq<char>) -> Seq<char> {
    if v.len() >= 2 && v[0] == '<' && v.last() == '>' {
        v.subrange(1, v.len() - 1)
    } else {
        v
    }
}

/// One part of a multipart body: its headers, in order, and its bytes.
#[derive(Clone, Debug, Default, PartialEq, Eq)]
pub struct Part {
    pub headers: Vec<(String, String)>,
    pub body: Vec<u8>,
}

impl Part {
    /// The part's headers as text.
    pub open spec fn header_views(&self) -> Seq<(Seq<char>, Seq<char>)> {
        self.headers@.map_values(|header: (String, String)| header_view(header))
    }

    /// A part carrying `body`, no headers yet.
    pub fn new(body: Vec<u8>) -> (part: Self)
        ensures
            part.header_views() == Seq::<(Seq<char>, Seq<char>)>::empty(),
            part.body@ == body@,
    {
        let part = Part { headers: Vec::new(), body };
        assert(part.header_views() =~= Seq::<(Seq<char>, Seq<char>)>::empty());
        part
    }

    /// With one more header.
    pub fn header(self, name: &str, value: &str) -> (part: Self)
        ensures
            part.header_views() == self.header_views().push((name@, value@)),
            part.body@ == self.body@,
    {
        let mut headers = self.headers;
        let ghost before = headers@;
        headers.push((String::from_str(name), String::from_str(value)));
        let part = Part { headers, body: self.body };
        assert(part.header_views() =~= self.header_views().push((name@, value@)));
        part
    }

    /// One header's value, however its name was capitalised.
    pub fn header_value(&self, name: &str) -> (found: Option<&str>)
        ensures
            match header_of(self.header_views(), name@) {
                Some(v) => found matches Some(s) && s@ == v,
                None => found is None,
            },
    {
        let wanted = chars_of(name);
        let mut k: usize = 0;
        assert(self.header_views().subrange(0, self.headers@.len() as int) =~= self.header_views());
        while k < self.headers.len()
            invariant
                k <= self.headers@.len(),
                wanted@ == name@,
                header_index(self.header_views(), name@) == k + header_index(
                    self.header_views().subrange(k as int, self.headers@.len() as int),
                    name@,
                ),
            decreases self.headers.len() - k,
        {
            let ghost rest = self.header_views().subrange(k as int, self.headers@.len() as int);
            let key = chars_of(self.headers[k].0.as_str());
            proof {
                assert(key@.subrange(0, key@.len() as int) =~= key@);
            }
            if matches_name(&key, 0, key.len(), &wanted) {
                proof {
                    assert(rest[0] == header_view(self.headers@[k as int]));
                }
                return Some(self.headers[k].1.as_str());
            }
            proof {
                assert(rest.drop_first() =~= self.header_views().subrange(
                    k + 1,
                    self.headers@.len() as int,
                ));
            }
            k += 1;
        }
        None
    }

    /// The part's `Content-Type`.
    pub fn content_type(&self) -> (found: Option<&str>)
        ensures
            match header_of(self.header_views(), "Content-Type"@) {
                Some(v) => found matches Some(s) && s@ == v,
                None => found is None,
            },
    {
        self.header_value("Content-Type")
    }

    /// The part's `Content-ID`, its angle brackets off.
    pub fn content_id(&self) -> (found: Option<&str>)
        ensures
            match header_of(self.header_views(), "Content-ID"@) {
                Some(v) => found matches Some(s) && s@ == unbracketed(v),
                None => found is None,
            },
    {
        match self.header_value("Content-ID") {
            Some(value) => {
                let chars = chars_of(value);
                let len = chars.len();
                if len >= 2 && chars[0] == '<' && chars[len - 1] == '>' {
                    Some(slice_chars(value, &chars, 1, len - 1))
                } else {
                    Some(value)
                }
            },
            None => None,
        }
    }
}

/// Why a body is not the multipart its boundary says, and where.
#[derive(Clone, Copy, Debug, PartialEq, Eq)]
pub struct Refusal {
    pub reason: &'static str,
    /// The byte the reason was found at.
    pub offset: usize,
}

impl Refusal {
    /// The refusal in words: its reason, then the byte it was found at.
    pub fn message(&self) -> (text: String)
        ensures
            text@ == self.reason@ + " at byte "@ + crate::text::decimal_chars(self.offset as nat),
    {
        let mut text = String::from_str(self.reason);
        text.append(" at byte ");
        text.append(crate::text::decimal(self.offset).as_str());
        text
    }
}

/// The words of a boundary made at `nanos` nanoseconds since the epoch,
/// the `count`th this process made: no two such boundaries are alike.
pub open spec fn boundary_words(nanos: nat, count: nat) -> Seq<char> {
    "=_xmip_"@ + hex_chars(nanos) + seq!['_'] + hex_chars(count)
}

/// The boundary made at `nanos` nanoseconds since the epoch, the `count`th
/// this process made.
pub fn boundary_from(nanos: u128, count: u64) -> (boundary: String)
    ensures
        boundary@ == boundary_words(nanos as nat, count as nat),
{
    let mut boundary = String::from_str("=_xmip_");
    push_hex(&mut boundary, nanos);
    push_char(&mut boundary, '_');
    push_hex(&mut boundary, count as u128);
    boundary
}

/// A part as text and bytes: its headers and its body.
pub open spec fn part_view(part: Part) -> (Seq<(Seq<char>, Seq<char>)>, Seq<u8>) {
    (part.header_views(), part.body@)
}

/// Parts as text and bytes.
pub open spec fn part_views(parts: Seq<Part>) -> Seq<(Seq<(Seq<char>, Seq<char>)>, Seq<u8>)> {
    parts.map_values(|part: Part| part_view(part))
}

/// A carriage return and a line feed.
pub open spec fn crlf() -> Seq<u8> {
    seq![13u8, 10u8]
}

/// Two hyphens.
pub open spec fn dashes() -> Seq<u8> {
    seq![45u8, 45u8]
}

/// The delimiter of `boundary`: two hyphens, then the boundary.
pub open spec fn delimiter(boundary: Seq<char>) -> Seq<u8> {
    dashes() + vstd::utf8::encode_utf8(boundary)
}

/// A header as its line is written: name, colon and space, value, line
/// break.
pub open spec fn header_line(header: (Seq<char>, Seq<char>)) -> Seq<u8> {
    vstd::utf8::encode_utf8(header.0) + seq![58u8, 32u8] + vstd::utf8::encode_utf8(header.1)
        + crlf()
}

/// Headers as their lines are written, in order.
pub open spec fn header_lines(headers: Seq<(Seq<char>, Seq<char>)>) -> Seq<u8>
    decreases headers.len(),
{
    if headers.len() == 0 {
        seq![]
    } else {
        header_line(headers[0]) + header_lines(headers.drop_first())
    }
}

/// A part as it is written after the delimiter `d`: the delimiter's line,
/// the header lines, a blank line, the bytes and a line break.
pub open spec fn part_bytes(d: Seq<u8>, part: (Seq<(Seq<char>, Seq<char>)>, Seq<u8>)) -> Seq<u8> {
    d + crlf() + header_lines(part.0) + crlf() + part.1 + crlf()
}

/// `parts` written one after another under the delimiter `d`, then the
/// closing delimiter.
pub open spec fn written(d: Seq<u8>, parts: Seq<(Seq<(Seq<char>, Seq<char>)>, Seq<u8>)>) -> Seq<
    u8,
>
    decreases parts.len(),
{
    if parts.len() == 0 {
        d + dashes() + crlf()
    } else {
        part_bytes(d, parts[0]) + written(d, parts.drop_first())
    }
}

/// `bytes` appended to `out`.
fn append(out: &mut Vec<u8>, bytes: &[u8])
    ensures
        final(out)@ == old(out)@ + bytes@,
{
    out.extend_from_slice(bytes);
    assert(out@ =~= old(out)@ + bytes@);
}

/// `text`'s UTF-8 appended to `out`.
fn append_text(out: &mut Vec<u8>, text: &str)
    ensures
        final(out)@ == old(out)@ + vstd::utf8::encode_utf8(text@),
{
    append(out, text.as_bytes());
}

/// Written headers, from the `from`th on, less those before.
proof fn lemma_header_lines_step(headers: Seq<(Seq<char>, Seq<char>)>, k: int)
    requires
        0 <= k < headers.len(),
    ensures
        header_lines(headers.subrange(k, headers.len() as int)) == header_line(headers[k])
            + header_lines(headers.subrange(k + 1, headers.len() as int)),
{
    assert(headers.subrange(k, headers.len() as int).drop_first() =~= headers.subrange(
        k + 1,
        headers.len() as int,
    ));
}

/// `parts` as one multipart body under `boundary`.
pub fn write(boundary: &str, parts: &[Part]) -> (body: Vec<u8>)
    ensures
        body@ == written(delimiter(boundary@), part_views(parts@)),
{
    let ghost d = delimiter(boundary@);
    let ghost views = part_views(parts@);
    let mut out: Vec<u8> = Vec::new();
    let mut i: usize = 0;
    assert(views.subrange(0, views.len() as int) =~= views);
    while i < parts.len()
        invariant
            i <= parts@.len(),
            views == part_views(parts@),
            d == delimiter(boundary@),
            written(d, views) == out@ + written(d, views.subrange(i as int, views.len() as int)),
        decreases parts.len() - i,
    {
        let part = &parts[i];
        let ghost start = out@;
        append(&mut out, &[45u8, 45u8]);
        append_text(&mut out, boundary);
        append(&mut out, &[13u8, 10u8]);
        let ghost opened = out@;
        let mut k: usize = 0;
        assert(part.header_views().subrange(0, part.headers@.len() as int) =~= part.header_views());
        while k < part.headers.len()
            invariant
                k <= part.headers@.len(),
                header_lines(part.header_views()) == out@.subrange(
                    opened.len() as int,
                    out@.len() as int,
                ) + header_lines(
                    part.header_views().subrange(k as int, part.headers@.len() as int),
                ),
                opened.len() <= out@.len(),
                out@.subrange(0, opened.len() as int) == opened,
            decreases part.headers.len() - k,
        {
            let ghost before = out@;
            append_text(&mut out, part.headers[k].0.as_str());
            append(&mut out, &[58u8, 32u8]);
            append_text(&mut out, part.headers[k].1.as_str());
            append(&mut out, &[13u8, 10u8]);
            proof {
                lemma_header_lines_step(part.header_views(), k as int);
                assert(out@.subrange(opened.len() as int, out@.len() as int) =~= before.subrange(
                    opened.len() as int,
                    before.len() as int,
                ) + header_line(part.header_views()[k as int]));
                assert(out@.subrange(0, opened.len() as int) =~= before.subrange(
                    0,
                    opened.len() as int,
                ));
            }
            k += 1;
        }
        proof {
            assert(part.header_views().subrange(
                part.headers@.len() as int,
                part.headers@.len() as int,
            ) =~= Seq::<(Seq<char>, Seq<char>)>::empty());
            assert(header_lines(Seq::<(Seq<char>, Seq<char>)>::empty()) =~= Seq::<u8>::empty());
            assert(out@ =~= opened + header_lines(part.header_views()));
        }
        append(&mut out, &[13u8, 10u8]);
        append(&mut out, part.body.as_slice());
        append(&mut out, &[13u8, 10u8]);
        proof {
            let rest = views.subrange(i as int, views.len() as int);
            assert(rest.drop_first() =~= views.subrange(i + 1, views.len() as int));
            assert(rest[0] == part_view(parts@[i as int]));
            assert(opened =~= start + d + crlf());
            assert(out@ =~= start + part_bytes(d, rest[0]));
        }
        i += 1;
    }
    append(&mut out, &[45u8, 45u8]);
    append_text(&mut out, boundary);
    append(&mut out, &[45u8, 45u8, 13u8, 10u8]);
    proof {
        assert(views.subrange(i as int, views.len() as int) =~= Seq::<
            (Seq<(Seq<char>, Seq<char>)>, Seq<u8>),
        >::empty());
    }
    assert(out@ =~= written(d, views));
    out
}

/// `after` less its leading transport padding: spaces and tabs.
pub open spec fn after_padding(after: Seq<u8>) -> Seq<u8>
    decreases after.len(),
{
    if after.len() > 0 && (after[0] == 32 || after[0] == 9) {
        after_padding(after.drop_first())
    } else {
        after
    }
}

/// Whether what follows a delimiter is a line's end (transport padding,
/// then a line break or the end of the body) or the `--` that closes.
pub open spec fn closes_line(after: Seq<u8>) -> bool {
    let rest = after_padding(after);
    rest.len() == 0 || dashes().is_prefix_of(rest) || rest[0] == 13 || rest[0] == 10
}

/// Whether the delimiter `d` stands at `at` in `bytes`: at the start of a
/// line, and closing it.
pub open spec fn delimiter_here(bytes: Seq<u8>, d: Seq<u8>, at: int) -> bool {
    &&& 0 <= at
    &&& at + d.len() <= bytes.len()
    &&& bytes.subrange(at, at + d.len()) == d
    &&& at == 0 || bytes[at - 1] == 10
    &&& closes_line(bytes.subrange(at + d.len(), bytes.len() as int))
}

/// The first delimiter `d` in `bytes` at or after `from`.
pub open spec fn next_delimiter(bytes: Seq<u8>, d: Seq<u8>, from: int) -> Option<int>
    decreases bytes.len() - from,
{
    if from < 0 || from >= bytes.len() || from + d.len() > bytes.len() {
        None
    } else if delimiter_here(bytes, d, from) {
        Some(from)
    } else {
        next_delimiter(bytes, d, from + 1)
    }
}

/// The byte after the line break that ends the line at `at`; the end of
/// `bytes` where none does.
pub open spec fn past_line(bytes: Seq<u8>, at: int) -> int
    decreases bytes.len() - at,
{
    if at < 0 || at >= bytes.len() {
        bytes.len() as int
    } else if bytes[at] == 10 {
        at + 1
    } else {
        past_line(bytes, at + 1)
    }
}

proof fn lemma_next_delimiter(bytes: Seq<u8>, d: Seq<u8>, from: int)
    requires
        0 <= from,
        d.len() > 0,
    ensures
        next_delimiter(bytes, d, from) matches Some(at) ==> from <= at && delimiter_here(
            bytes,
            d,
            at,
        ) && forall|i: int| from <= i < at ==> !delimiter_here(bytes, d, i),
        next_delimiter(bytes, d, from) is None ==> forall|i: int|
            from <= i ==> !delimiter_here(bytes, d, i),
    decreases bytes.len() - from,
{
    if !(from < 0 || from >= bytes.len() || from + d.len() > bytes.len()) && !delimiter_here(
        bytes,
        d,
        from,
    ) {
        lemma_next_delimiter(bytes, d, from + 1);
    }
}

proof fn lemma_past_line(bytes: Seq<u8>, at: int)
    requires
        0 <= at <= bytes.len(),
    ensures
        at <= past_line(bytes, at) <= bytes.len(),
        past_line(bytes, at) < bytes.len() ==> at < past_line(bytes, at),
    decreases bytes.len() - at,
{
    if at < bytes.len() && bytes[at] != 10 {
        lemma_past_line(bytes, at + 1);
    }
}

/// Whether what follows position `at` of `bytes` closes a delimiter's
/// line.
fn closes_the_line(bytes: &[u8], at: usize) -> (closes: bool)
    requires
        at <= bytes@.len(),
    ensures
        closes == closes_line(bytes@.subrange(at as int, bytes@.len() as int)),
{
    let len = bytes.len();
    let mut k = at;
    while k < len && (bytes[k] == 32 || bytes[k] == 9)
        invariant
            at <= k <= len,
            len == bytes@.len(),
            after_padding(bytes@.subrange(at as int, len as int)) == after_padding(
                bytes@.subrange(k as int, len as int),
            ),
        decreases len - k,
    {
        assert(bytes@.subrange(k as int, len as int).drop_first() =~= bytes@.subrange(
            k + 1,
            len as int,
        ));
        k += 1;
    }
    let ghost rest = bytes@.subrange(k as int, len as int);
    assert(after_padding(rest) == rest);
    if k == len {
        return true;
    }
    if k + 1 < len && bytes[k] == 45 && bytes[k + 1] == 45 {
        assert(dashes().is_prefix_of(rest)) by {
            assert(rest.subrange(0, 2) =~= dashes());
        }
        return true;
    }
    if k + 1 >= len || bytes[k] != 45 || bytes[k + 1] != 45 {
        assert(!dashes().is_prefix_of(rest)) by {
            if dashes().is_prefix_of(rest) {
                assert(rest[0] == dashes()[0]);
                assert(rest[1] == dashes()[1]);
            }
        }
    }
    bytes[k] == 13 || bytes[k] == 10
}

/// Whether the delimiter `d` stands at `at` in `bytes`.
fn delimiter_stands(bytes: &[u8], d: &[u8], at: usize) -> (stands: bool)
    requires
        at + d@.len() <= bytes@.len(),
    ensures
        stands == delimiter_here(bytes@, d@, at as int),
{
    let len = bytes.len();
    let mut k: usize = 0;
    while k < d.len()
        invariant
            k <= d@.len(),
            len == bytes@.len(),
            at + d@.len() <= bytes@.len(),
            forall|j: int| 0 <= j < k ==> bytes@[at + j] == d@[j],
        decreases d.len() - k,
    {
        if bytes[at + k] != d[k] {
            assert(bytes@.subrange(at as int, at + d@.len())[k as int] != d@[k as int]);
            return false;
        }
        k += 1;
    }
    assert(bytes@.subrange(at as int, at + d@.len()) =~= d@);
    if at > 0 && bytes[at - 1] != 10 {
        return false;
    }
    closes_the_line(bytes, at + d.len())
}

/// The next delimiter `d` at the start of a line, at or after `from`.
pub fn delimiter_at(bytes: &[u8], d: &[u8], from: usize) -> (found: Option<usize>)
    ensures
        match next_delimiter(bytes@, d@, from as int) {
            Some(at) => found == Some(at as usize),
            None => found is None,
        },
{
    let len = bytes.len();
    if d.len() > len {
        assert(next_delimiter(bytes@, d@, from as int) is None);
        return None;
    }
    let last = len - d.len();
    let mut at = from;
    while at <= last && at < len
        invariant
            from <= at,
            last + d@.len() == len,
            len == bytes@.len(),
            next_delimiter(bytes@, d@, from as int) == next_delimiter(bytes@, d@, at as int),
        decreases len - at,
    {
        if delimiter_stands(bytes, d, at) {
            return Some(at);
        }
        at += 1;
    }
    None
}

/// The byte after the line break that ends the line at `at`.
fn line_past(bytes: &[u8], at: usize) -> (past: usize)
    requires
        at <= bytes@.len(),
    ensures
        past == past_line(bytes@, at as int),
{
    let mut k = at;
    while k < bytes.len()
        invariant
            at <= k <= bytes@.len(),
            past_line(bytes@, at as int) == past_line(bytes@, k as int),
        decreases bytes.len() - k,
    {
        if bytes[k] == 10 {
            return k + 1;
        }
        k += 1;
    }
    k
}

/// The first line feed in `s` at or after `at`; `s`'s length where none
/// is.
pub open spec fn newline_after(s: Seq<u8>, at: int) -> int
    decreases s.len() - at,
{
    if at < 0 || at >= s.len() {
        s.len() as int
    } else if s[at] == 10 {
        at
    } else {
        newline_after(s, at + 1)
    }
}

/// Where the headers of `section` end and its body begins: the first line
/// at or after `at` that is blank, a carriage return aside.
pub open spec fn blank_line(section: Seq<u8>, at: int) -> Option<(int, int)>
    decreases section.len() - at,
{
    if at < 0 || at >= section.len() {
        None
    } else {
        let end = newline_after(section, at);
        if end >= section.len() {
            None
        } else if end == at || (end == at + 1 && section[at] == 13) {
            Some((at, end + 1))
        } else if end > at {
            blank_line(section, end + 1)
        } else {
            None
        }
    }
}

/// `body` less the line break at its end, which belongs to the delimiter
/// after it.
pub open spec fn without_break(body: Seq<u8>) -> Seq<u8> {
    if body.len() >= 2 && body[body.len() - 2] == 13 && body[body.len() - 1] == 10 {
        body.subrange(0, body.len() - 2)
    } else if body.len() >= 1 && body[body.len() - 1] == 10 {
        body.subrange(0, body.len() - 1)
    } else {
        body
    }
}

proof fn lemma_newline_after(s: Seq<u8>, at: int)
    requires
        0 <= at,
    ensures
        at <= newline_after(s, at) || at > s.len(),
        newline_after(s, at) <= s.len(),
        newline_after(s, at) < s.len() ==> s[newline_after(s, at)] == 10,
        forall|i: int| at <= i < newline_after(s, at) ==> s[i] != 10,
    decreases s.len() - at,
{
    if at < s.len() && s[at] != 10 {
        lemma_newline_after(s, at + 1);
    }
}

/// The first line feed in `bytes[at..to]`, counted from the start of
/// `bytes`; `to` where none is.
fn newline_in(bytes: &[u8], at: usize, to: usize) -> (found: usize)
    requires
        at <= to <= bytes@.len(),
    ensures
        found == at + newline_after(bytes@.subrange(at as int, to as int), 0),
{
    let ghost section = bytes@.subrange(at as int, to as int);
    let mut k = at;
    while k < to
        invariant
            at <= k <= to,
            to <= bytes@.len(),
            section == bytes@.subrange(at as int, to as int),
            newline_after(section, 0) == newline_after(section, k - at),
        decreases to - k,
    {
        if bytes[k] == 10 {
            return k;
        }
        k += 1;
    }
    k
}

/// The headers and the body of `bytes[start..next]`, cut at its first
/// blank line: where the headers end and the body begins.
fn split_headers(bytes: &[u8], start: usize, next: usize) -> (cut: Option<(usize, usize)>)
    requires
        start <= next <= bytes@.len(),
    ensures
        match blank_line(bytes@.subrange(start as int, next as int), 0) {
            Some((head, body)) => cut == Some(((start + head) as usize, (start + body) as usize)),
            None => cut is None,
        },
{
    let ghost section = bytes@.subrange(start as int, next as int);
    let mut at = start;
    while at < next
        invariant
            start <= at <= next,
            next <= bytes@.len(),
            section == bytes@.subrange(start as int, next as int),
            blank_line(section, 0) == blank_line(section, at - start),
        decreases next - at,
    {
        let end = newline_in(bytes, at, next);
        proof {
            let tail = bytes@.subrange(at as int, next as int);
            lemma_newline_after(tail, 0);
            lemma_newline_after(section, at - start);
            assert forall|i: int| 0 <= i < tail.len() implies tail[i] == section[i + at - start] by {}
            assert(newline_after(section, at - start) == end - start) by {
                if newline_after(section, at - start) < end - start {
                    assert(tail[newline_after(section, at - start) - (at - start)] == 10);
                } else if newline_after(section, at - start) > end - start {
                    if end < next {
                        assert(section[end - start] == 10);
                    }
                }
            }
        }
        if end == next {
            return None;
        }
        if end == at || (end == at + 1 && bytes[at] == 13) {
            return Some((at, end + 1));
        }
        at = end + 1;
    }
    None
}

/// `line` less a carriage return at its end.
pub open spec fn strip_cr(line: Seq<char>) -> Seq<char> {
    if line.len() > 0 && line.last() == '\r' {
        line.drop_last()
    } else {
        line
    }
}

/// The lines of `text` as `str::lines` gives them: cut at each line feed,
/// a carriage return before it dropped, no empty line after a final one.
pub open spec fn lines_of(text: Seq<char>) -> Seq<Seq<char>>
    decreases text.len(),
{
    if text.len() == 0 {
        seq![]
    } else {
        let end = find_char(text, '\n');
        if 0 <= end < text.len() {
            seq![strip_cr(text.subrange(0, end))] + lines_of(
                text.subrange(end + 1, text.len() as int),
            )
        } else {
            seq![text]
        }
    }
}

/// The headers read so far, `out`, after one more line: a line that opens
/// with a space or a tab continues the header before it, one with a colon
/// is a header of its own, and any other is not a header.
pub open spec fn header_step(out: Seq<(Seq<char>, Seq<char>)>, line: Seq<char>) -> Seq<
    (Seq<char>, Seq<char>),
> {
    if line.len() > 0 && (line[0] == ' ' || line[0] == '\t') {
        if out.len() > 0 {
            out.update(
                out.len() - 1,
                (out.last().0, out.last().1 + seq![' '] + trimmed(line)),
            )
        } else {
            out
        }
    } else {
        let colon = find_char(line, ':');
        if colon < line.len() {
            out.push(
                (
                    trimmed(line.subrange(0, colon)),
                    trimmed(line.subrange(colon + 1, line.len() as int)),
                ),
            )
        } else {
            out
        }
    }
}

/// The headers `out`, then those `lines` hold.
pub open spec fn headers_after(
    out: Seq<(Seq<char>, Seq<char>)>,
    lines: Seq<Seq<char>>,
) -> Seq<(Seq<char>, Seq<char>)>
    decreases lines.len(),
{
    if lines.len() == 0 {
        out
    } else {
        headers_after(header_step(out, lines[0]), lines.drop_first())
    }
}

/// The headers `text` holds, a line that opens with a space or a tab
/// continuing the one before it (RFC 5322 section 2.2.3).
pub open spec fn headers_of(text: Seq<char>) -> Seq<(Seq<char>, Seq<char>)> {
    headers_after(seq![], lines_of(text))
}

/// Headers as text.
pub open spec fn header_views(headers: Seq<(String, String)>) -> Seq<(Seq<char>, Seq<char>)> {
    headers.map_values(|header: (String, String)| header_view(header))
}

/// The characters `chars[from..to]` as a new string.
fn string_of(chars: &Vec<char>, from: usize, to: usize) -> (text: String)
    requires
        from <= to <= chars@.len(),
    ensures
        text@ == chars@.subrange(from as int, to as int),
{
    let mut text = String::new();
    push_range(&mut text, chars, from, to);
    assert(text@ =~= chars@.subrange(from as int, to as int));
    text
}

/// Each header of `head`, a line that opens with a space or a tab
/// continuing the one before it (RFC 5322 section 2.2.3).
pub fn headers(head: &str) -> (found: Vec<(String, String)>)
    ensures
        header_views(found@) == headers_of(head@),
{
    let chars = chars_of(head);
    let len = chars.len();
    let mut out: Vec<(String, String)> = Vec::new();
    let mut pos: usize = 0;
    proof {
        assert(chars@.subrange(0, len as int) =~= chars@);
        assert(header_views(out@) =~= Seq::<(Seq<char>, Seq<char>)>::empty());
    }
    while pos < len
        invariant
            pos <= len,
            len == chars@.len(),
            chars@ == head@,
            headers_of(head@) == headers_after(
                header_views(out@),
                lines_of(chars@.subrange(pos as int, len as int)),
            ),
        decreases len - pos,
    {
        let ghost text = chars@.subrange(pos as int, len as int);
        let ghost before = header_views(out@);
        let end = find_in(&chars, pos, len, '\n');
        let mut stop = end;
        if end < len && stop > pos && chars[stop - 1] == '\r' {
            stop = stop - 1;
        }
        let ghost line = chars@.subrange(pos as int, stop as int);
        proof {
            if end < len {
                assert(text.subrange(0, end - pos) =~= chars@.subrange(pos as int, end as int));
                assert(strip_cr(text.subrange(0, end - pos)) =~= line);
                assert(text.subrange(end - pos + 1, text.len() as int) =~= chars@.subrange(
                    end + 1,
                    len as int,
                ));
            } else {
                assert(line =~= text);
            }
            assert(lines_of(text)[0] == line);
        }
        if stop > pos && (chars[pos] == ' ' || chars[pos] == '\t') {
            if out.len() > 0 {
                let ghost whole = out@;
                let (name, mut value) = match out.pop() {
                    Some(header) => header,
                    None => (String::new(), String::new()),
                };
                let ghost last = value@;
                proof {
                    assert(whole.last() == (name, value));
                    assert(before.last() == (name@, last));
                    assert(header_views(out@) =~= before.drop_last());
                    assert(line[0] == chars@[pos as int]);
                }
                push_char(&mut value, ' ');
                let (from, to) = trim_range(&chars, pos, stop);
                push_range(&mut value, &chars, from, to);
                out.push((name, value));
                proof {
                    assert(value@ =~= last + seq![' '] + trimmed(line));
                    assert(header_views(out@) =~= header_step(before, line));
                }
            } else {
                proof {
                    assert(header_views(out@) =~= header_step(before, line));
                }
            }
        } else {
            let colon = find_in(&chars, pos, stop, ':');
            if colon < stop {
                proof {
                    assert(line.subrange(0, colon - pos) =~= chars@.subrange(pos as int, colon as int));
                    assert(line.subrange(colon - pos + 1, line.len() as int) =~= chars@.subrange(
                        colon + 1,
                        stop as int,
                    ));
                }
                let (name_from, name_to) = trim_range(&chars, pos, colon);
                let (value_from, value_to) = trim_range(&chars, colon + 1, stop);
                let name = string_of(&chars, name_from, name_to);
                let value = string_of(&chars, value_from, value_to);
                out.push((name, value));
                proof {
                    assert(header_views(out@) =~= header_step(before, line));
                }
            } else {
                proof {
                    assert(header_views(out@) =~= header_step(before, line));
                }
            }
        }
        if end == len {
            proof {
                assert(lines_of(text).drop_first() =~= Seq::<Seq<char>>::empty());
                assert(chars@.subrange(len as int, len as int) =~= Seq::<char>::empty());
            }
            pos = len;
        } else {
            proof {
                assert(lines_of(text).drop_first() =~= lines_of(
                    chars@.subrange(end + 1, len as int),
                ));
            }
            pos = end + 1;
        }
    }
    proof {
        assert(chars@.subrange(pos as int, len as int) =~= Seq::<char>::empty());
    }
    out
}

/// The text `bytes` spell in UTF-8, each run that is not UTF-8 replaced by
/// U+FFFD, as `String::from_utf8_lossy` reads them.
pub uninterp spec fn lossy_utf8(bytes: Seq<u8>) -> Seq<char>;

/// The text `bytes` spell, what is not UTF-8 replaced.
///
/// Trusted: calls `String::from_utf8_lossy`. Its result is named
/// [`lossy_utf8`], a function of the bytes alone; of it only this is
/// stated, as std documents it: bytes that are valid UTF-8 read as the text
/// they encode.
#[verifier::external_body]
fn text_lossy(bytes: &[u8]) -> (text: String)
    ensures
        text@ == lossy_utf8(bytes@),
        vstd::utf8::valid_utf8(bytes@) ==> text@ == vstd::utf8::decode_utf8(bytes@),
{
    String::from_utf8_lossy(bytes).into_owned()
}

/// The text a part's header bytes are read as: what they encode, where
/// they are UTF-8, and otherwise what [`lossy_utf8`] makes of them.
pub open spec fn head_text(bytes: Seq<u8>) -> Seq<char> {
    if vstd::utf8::valid_utf8(bytes) {
        vstd::utf8::decode_utf8(bytes)
    } else {
        lossy_utf8(bytes)
    }
}

/// A part as text and bytes: its headers and its bytes.
pub type PartView = (Seq<(Seq<char>, Seq<char>)>, Seq<u8>);

/// The part `bytes[start..next]` holds, or why it holds none and where.
pub open spec fn part_at(bytes: Seq<u8>, start: int, next: int) -> Result<
    PartView,
    (Seq<char>, int),
> {
    let section = bytes.subrange(start, next);
    match blank_line(section, 0) {
        Some((head, body)) => Ok(
            (
                headers_of(head_text(section.subrange(0, head))),
                without_break(section.subrange(body, section.len() as int)),
            ),
        ),
        None => Err(("no blank line after the part headers"@, start)),
    }
}

/// The parts `bytes` holds after the delimiter of `boundary` at `at`, or
/// why they are not a multipart body and where.
pub open spec fn parts_after(bytes: Seq<u8>, boundary: Seq<char>, at: int) -> Result<
    Seq<PartView>,
    (Seq<char>, int),
>
    decreases bytes.len() - at,
{
    let d = delimiter(boundary);
    let after = at + d.len();
    if dashes().is_prefix_of(bytes.subrange(after, bytes.len() as int)) {
        Ok(seq![])
    } else {
        let start = past_line(bytes, after);
        match next_delimiter(bytes, d, start) {
            None => Err(("no closing boundary"@, bytes.len() as int)),
            Some(next) => if at < next <= bytes.len() {
                match part_at(bytes, start, next) {
                    Err(refusal) => Err(refusal),
                    Ok(part) => match parts_after(bytes, boundary, next) {
                        Ok(parts) => Ok(seq![part] + parts),
                        Err(refusal) => Err(refusal),
                    },
                }
            } else {
                Err(("no closing boundary"@, bytes.len() as int))
            },
        }
    }
}

/// The parts between the delimiters of `boundary` in `bytes`, or why
/// there are none and where.
pub open spec fn read_of(bytes: Seq<u8>, boundary: Seq<char>) -> Result<
    Seq<PartView>,
    (Seq<char>, int),
> {
    match next_delimiter(bytes, delimiter(boundary), 0) {
        None => Err(("no opening boundary"@, 0)),
        Some(at) => parts_after(bytes, boundary, at),
    }
}

/// `parts` with the parts `found` before them.
pub open spec fn after_found(found: Seq<PartView>, parts: Result<Seq<PartView>, (Seq<char>, int)>) -> Result<
    Seq<PartView>,
    (Seq<char>, int),
> {
    match parts {
        Ok(more) => Ok(found + more),
        Err(refusal) => Err(refusal),
    }
}

/// One part from `bytes[start..next]`, its headers and body, the body's
/// trailing line break (which belongs to the delimiter after it) removed.
fn part(bytes: &[u8], start: usize, next: usize) -> (found: Result<Part, Refusal>)
    requires
        start <= next <= bytes@.len(),
    ensures
        match part_at(bytes@, start as int, next as int) {
            Ok(view) => found matches Ok(p) && part_view(p) == view,
            Err((reason, offset)) => found matches Err(r) && r.reason@ == reason && r.offset
                == offset,
        },
{
    let ghost section = bytes@.subrange(start as int, next as int);
    match split_headers(bytes, start, next) {
        None => Err(Refusal { reason: "no blank line after the part headers", offset: start }),
        Some((head_end, body_start)) => {
            proof {
                lemma_blank_line(section, 0);
            }
            let head = text_lossy(vstd::slice::slice_subrange(bytes, start, head_end));
            let found_headers = headers(head.as_str());
            let mut end = next;
            if next - body_start >= 2 && bytes[next - 2] == 13 && bytes[next - 1] == 10 {
                end = next - 2;
            } else if next - body_start >= 1 && bytes[next - 1] == 10 {
                end = next - 1;
            }
            let body = vstd::slice::slice_to_vec(vstd::slice::slice_subrange(bytes, body_start, end));
            proof {
                assert(section.subrange(0, head_end - start) =~= bytes@.subrange(
                    start as int,
                    head_end as int,
                ));
                let rest = section.subrange(body_start - start, section.len() as int);
                assert(rest =~= bytes@.subrange(body_start as int, next as int));
                assert(without_break(rest) =~= body@);
            }
            let found = Part { headers: found_headers, body };
            assert(part_view(found) == (header_views(found.headers@), found.body@));
            Ok(found)
        },
    }
}

proof fn lemma_blank_line(section: Seq<u8>, at: int)
    requires
        0 <= at,
    ensures
        blank_line(section, at) matches Some((head, body)) ==> at <= head < body <= section.len(),
    decreases section.len() - at,
{
    if 0 <= at < section.len() {
        let end = newline_after(section, at);
        lemma_newline_after(section, at);
        if end < section.len() && !(end == at || (end == at + 1 && section[at] == 13)) && end > at {
            lemma_blank_line(section, end + 1);
        }
    }
}

/// Whether `bytes[at..]` opens with two hyphens.
fn dashes_at(bytes: &[u8], at: usize) -> (opens: bool)
    requires
        at <= bytes@.len(),
    ensures
        opens == dashes().is_prefix_of(bytes@.subrange(at as int, bytes@.len() as int)),
{
    let ghost rest = bytes@.subrange(at as int, bytes@.len() as int);
    if bytes.len() - at >= 2 && bytes[at] == 45 && bytes[at + 1] == 45 {
        assert(rest.subrange(0, 2) =~= dashes());
        true
    } else {
        assert(!dashes().is_prefix_of(rest)) by {
            if dashes().is_prefix_of(rest) {
                assert(rest[0] == dashes()[0]);
                assert(rest[1] == dashes()[1]);
            }
        }
        false
    }
}

/// The parts between the delimiters of `boundary`.
///
/// # Errors
/// No opening delimiter, no closing delimiter, or a part whose headers
/// never end.
pub fn read(bytes: &[u8], boundary: &str) -> (result: Result<Vec<Part>, Refusal>)
    ensures
        match read_of(bytes@, boundary@) {
            Ok(views) => result matches Ok(parts) && part_views(parts@) == views,
            Err((reason, offset)) => result matches Err(r) && r.reason@ == reason && r.offset
                == offset,
        },
{
    let mut d: Vec<u8> = Vec::new();
    append(&mut d, &[45u8, 45u8]);
    append_text(&mut d, boundary);
    let ghost d_view = delimiter(boundary@);
    assert(d@ =~= d_view);
    let len = bytes.len();
    proof {
        lemma_next_delimiter(bytes@, d_view, 0);
    }
    let mut at = match delimiter_at(bytes, d.as_slice(), 0) {
        Some(at) => at,
        None => {
            return Err(Refusal { reason: "no opening boundary", offset: 0 });
        },
    };
    let mut parts: Vec<Part> = Vec::new();
    assert(part_views(parts@) =~= Seq::<PartView>::empty());
    assert(read_of(bytes@, boundary@) =~= after_found(part_views(parts@), parts_after(bytes@, boundary@, at as int)));
    loop
        invariant
            len == bytes@.len(),
            d@ == d_view,
            d_view == delimiter(boundary@),
            delimiter_here(bytes@, d_view, at as int),
            read_of(bytes@, boundary@) == after_found(
                part_views(parts@),
                parts_after(bytes@, boundary@, at as int),
            ),
        decreases len - at,
    {
        let after = at + d.len();
        if dashes_at(bytes, after) {
            assert(part_views(parts@) + Seq::<PartView>::empty() =~= part_views(parts@));
            return Ok(parts);
        }
        let start = line_past(bytes, after);
        proof {
            lemma_past_line(bytes@, after as int);
            lemma_next_delimiter(bytes@, d_view, start as int);
        }
        let next = match delimiter_at(bytes, d.as_slice(), start) {
            Some(next) => next,
            None => {
                return Err(Refusal { reason: "no closing boundary", offset: len });
            },
        };
        match part(bytes, start, next) {
            Ok(found) => {
                let ghost before = part_views(parts@);
                parts.push(found);
                proof {
                    assert(part_views(parts@) =~= before.push(part_view(found)));
                    match parts_after(bytes@, boundary@, next as int) {
                        Ok(more) => {
                            assert(before + (seq![part_view(found)] + more) =~= part_views(parts@)
                                + more);
                        },
                        Err(_) => {},
                    }
                }
            },
            Err(refusal) => {
                return Err(refusal);
            },
        }
        at = next;
    }
}

/// The longest boundary RFC 2046 allows.
const BOUNDARY_MAX: usize = 70;

/// Whether `b` may stand in a boundary: a letter, a digit, or one of
/// `'()+_,-./:=?`.
pub open spec fn boundary_byte(b: u8) -> bool {
    (48 <= b <= 57) || (65 <= b <= 90) || (97 <= b <= 122) || b == 39 || b == 40 || b == 41
        || b == 43 || b == 95 || b == 44 || b == 45 || b == 46 || b == 47 || b == 58 || b == 61
        || b == 63
}

/// Whether `b` is ASCII white space: space, tab, line feed, form feed or
/// carriage return.
pub open spec fn ascii_white(b: u8) -> bool {
    b == 32 || b == 9 || b == 10 || b == 12 || b == 13
}

/// `s` less its trailing ASCII white space.
pub open spec fn trim_ascii_end(s: Seq<u8>) -> Seq<u8>
    decreases s.len(),
{
    if s.len() > 0 && ascii_white(s.last()) {
        trim_ascii_end(s.drop_last())
    } else {
        s
    }
}

/// The first carriage return or line feed in `s` at or after `at`; `s`'s
/// length where none is.
pub open spec fn line_break_from(s: Seq<u8>, at: int) -> int
    decreases s.len() - at,
{
    if at < 0 || at >= s.len() {
        s.len() as int
    } else if s[at] == 13 || s[at] == 10 {
        at
    } else {
        line_break_from(s, at + 1)
    }
}

/// The boundary a body declares by opening with `--boundary` on its first
/// line: its bytes, trailing white space aside, where they are a sound
/// boundary of 1 to 70 bytes.
pub open spec fn opening_of(bytes: Seq<u8>) -> Option<Seq<u8>> {
    if bytes.len() >= 2 && bytes[0] == 45 && bytes[1] == 45 {
        let end = line_break_from(bytes, 2);
        if end < bytes.len() {
            let boundary = trim_ascii_end(bytes.subrange(2, end));
            if 0 < boundary.len() <= 70 && forall|i: int|
                0 <= i < boundary.len() ==> boundary_byte(#[trigger] boundary[i]) {
                Some(boundary)
            } else {
                None
            }
        } else {
            None
        }
    } else {
        None
    }
}

/// The text `bytes` spell in UTF-8, or `None` where they are not UTF-8.
///
/// Trusted: calls `std::str::from_utf8`, which returns `Ok` exactly when
/// the bytes are valid UTF-8, the `str` then holding those bytes (std
/// documentation).
#[verifier::external_body]
fn str_from_utf8(bytes: &[u8]) -> (text: Option<&str>)
    ensures
        text is Some <==> vstd::utf8::valid_utf8(bytes@),
        text matches Some(t) ==> t@ == vstd::utf8::decode_utf8(bytes@),
{
    std::str::from_utf8(bytes).ok()
}

/// Bytes under 128 are UTF-8, each its own character.
proof fn lemma_ascii_valid(bytes: Seq<u8>)
    requires
        forall|i: int| 0 <= i < bytes.len() ==> bytes[i] < 128,
    ensures
        vstd::utf8::valid_utf8(bytes),
{
    let chars = bytes.map_values(|b: u8| b as char);
    assert(vstd::utf8::is_ascii_chars(chars));
    vstd::utf8::is_ascii_chars_encode_utf8(chars);
    assert forall|i: int| 0 <= i < bytes.len() implies ((bytes[i] as char) as u8) == bytes[i] by {
        let b = bytes[i];
        assert((b as char) as u32 == b as u32);
    }
    assert(vstd::utf8::encode_utf8(chars) =~= bytes);
    vstd::utf8::encode_utf8_valid_utf8(chars);
}

/// The boundary a body declares by opening with `--boundary` on its first
/// line, where no media type declared one.
pub fn opening_boundary(bytes: &[u8]) -> (found: Option<&str>)
    ensures
        match opening_of(bytes@) {
            Some(boundary) => found matches Some(s) && s.spec_bytes() == boundary,
            None => found is None,
        },
{
    let len = bytes.len();
    if len < 2 || bytes[0] != 45 || bytes[1] != 45 {
        return None;
    }
    let mut end: usize = 2;
    while end < len && bytes[end] != 13 && bytes[end] != 10
        invariant
            2 <= end <= len,
            len == bytes@.len(),
            line_break_from(bytes@, 2) == line_break_from(bytes@, end as int),
        decreases len - end,
    {
        end += 1;
    }
    if end == len {
        return None;
    }
    let mut stop = end;
    while stop > 2 && (bytes[stop - 1] == 32 || bytes[stop - 1] == 9 || bytes[stop - 1] == 10
        || bytes[stop - 1] == 12 || bytes[stop - 1] == 13)
        invariant
            2 <= stop <= end,
            end < len,
            len == bytes@.len(),
            trim_ascii_end(bytes@.subrange(2, end as int)) == trim_ascii_end(
                bytes@.subrange(2, stop as int),
            ),
        decreases stop,
    {
        assert(bytes@.subrange(2, stop as int).drop_last() =~= bytes@.subrange(2, stop - 1));
        stop -= 1;
    }
    let ghost boundary = bytes@.subrange(2, stop as int);
    assert(trim_ascii_end(boundary) == boundary);
    if stop == 2 || stop - 2 > BOUNDARY_MAX {
        return None;
    }
    let mut k: usize = 2;
    while k < stop
        invariant
            2 <= k <= stop,
            stop <= end,
            end < len,
            len == bytes@.len(),
            bytes@[0] == 45,
            bytes@[1] == 45,
            line_break_from(bytes@, 2) == end,
            trim_ascii_end(bytes@.subrange(2, end as int)) == boundary,
            0 < boundary.len() <= 70,
            boundary == bytes@.subrange(2, stop as int),
            forall|i: int| 0 <= i < k - 2 ==> boundary_byte(#[trigger] boundary[i]),
        decreases stop - k,
    {
        let b = bytes[k];
        let sound = (48 <= b && b <= 57) || (65 <= b && b <= 90) || (97 <= b && b <= 122) || b
            == 39 || b == 40 || b == 41 || b == 43 || b == 95 || b == 44 || b == 45 || b == 46
            || b == 47 || b == 58 || b == 61 || b == 63;
        if !sound {
            assert(!boundary_byte(boundary[k - 2]));
            return None;
        }
        k += 1;
    }
    let piece = vstd::slice::slice_subrange(bytes, 2, stop);
    proof {
        assert forall|i: int| 0 <= i < piece@.len() implies piece@[i] < 128 by {
            assert(boundary_byte(boundary[i]));
        }
        lemma_ascii_valid(piece@);
    }
    let found = str_from_utf8(piece);
    proof {
        match found {
            Some(s) => {
                vstd::utf8::decode_utf8_encode_utf8(piece@);
            },
            None => {},
        }
    }
    found
}

/// Whether `needle` stands anywhere in `hay`.
pub open spec fn occurs_in(needle: Seq<u8>, hay: Seq<u8>) -> bool {
    exists|i: int|
        0 <= i && i + needle.len() <= hay.len() && #[trigger] hay.subrange(i, i + needle.len())
            == needle
}

/// Whether a header reads back as it is written under the delimiter `d`:
/// no line feed in it, no colon in its name, no white space at either end
/// of name or value, and its line no delimiter line: not the delimiter
/// followed by what closes a delimiter's line.
pub open spec fn plain_header(d: Seq<u8>, header: (Seq<char>, Seq<char>)) -> bool {
    &&& !header.0.contains('\n')
    &&& !header.0.contains(':')
    &&& !header.1.contains('\n')
    &&& trimmed(header.0) == header.0
    &&& trimmed(header.1) == header.1
    &&& !(d.is_prefix_of(header_line(header)) && closes_line(
        header_line(header).subrange(d.len() as int, header_line(header).len() as int),
    ))
}

/// Whether a part reads back as it is written under the delimiter `d`:
/// every header plain, and the delimiter nowhere in its bytes.
pub open spec fn writable_part(d: Seq<u8>, part: PartView) -> bool {
    &&& forall|j: int| 0 <= j < part.0.len() ==> plain_header(d, #[trigger] part.0[j])
    &&& !occurs_in(d, part.1)
}

proof fn lemma_scalar_avoids(v: u32, c: u8)
    requires
        c < 128,
        v != c as u32,
    ensures
        forall|i: int|
            0 <= i < vstd::utf8::encode_scalar(v).len() ==> vstd::utf8::encode_scalar(v)[i] != c,
{
    assert((v <= 0x7f && v != c as u32 && c < 128) ==> (v & 0x7f) as u8 != c) by (bit_vector);
    assert(c < 128 ==> 0xC0 | ((v >> 6u32) & 0x1F) as u8 != c) by (bit_vector);
    assert(c < 128 ==> 0xE0 | ((v >> 12u32) & 0x0F) as u8 != c) by (bit_vector);
    assert(c < 128 ==> 0xF0 | ((v >> 18u32) & 0x7) as u8 != c) by (bit_vector);
    assert(c < 128 ==> 0x80 | (v & 0x3F) as u8 != c) by (bit_vector);
    assert(c < 128 ==> 0x80 | ((v >> 6u32) & 0x3F) as u8 != c) by (bit_vector);
    assert(c < 128 ==> 0x80 | ((v >> 12u32) & 0x3F) as u8 != c) by (bit_vector);
}

/// Text without the ASCII character `c` has no byte `c` in its UTF-8.
proof fn lemma_utf8_avoids(chars: Seq<char>, c: char)
    requires
        (c as u32) < 128,
        !chars.contains(c),
    ensures
        forall|i: int|
            0 <= i < vstd::utf8::encode_utf8(chars).len() ==> vstd::utf8::encode_utf8(chars)[i]
                != (c as u32) as u8,
    decreases chars.len(),
{
    if chars.len() > 0 {
        let rest = chars.drop_first();
        assert(!rest.contains(c)) by {
            if rest.contains(c) {
                let k = choose|k: int| 0 <= k < rest.len() && rest[k] == c;
                assert(chars[k + 1] == c);
            }
        }
        lemma_utf8_avoids(rest, c);
        assert(chars[0] != c);
        vstd::utf8::char_u32_cast(c, c as u32);
        vstd::utf8::char_u32_cast(chars[0], chars[0] as u32);
        assert(chars[0] as u32 != c as u32);
        let cu = c as u32;
        assert(((cu as u8) as u32) == cu) by (bit_vector)
            requires
                cu < 128,
        ;
        lemma_scalar_avoids(chars[0] as u32, (c as u32) as u8);
        let all = vstd::utf8::encode_utf8(chars);
        let first = vstd::utf8::encode_scalar(chars[0] as u32);
        assert(all == first + vstd::utf8::encode_utf8(rest));
        assert forall|i: int| 0 <= i < all.len() implies all[i] != (c as u32) as u8 by {
            if i < first.len() {
                assert(all[i] == first[i]);
            } else {
                assert(all[i] == vstd::utf8::encode_utf8(rest)[i - first.len()]);
            }
        }
    }
}

proof fn lemma_first_delimiter(bytes: Seq<u8>, d: Seq<u8>, from: int, to: int)
    requires
        0 <= from <= to,
        d.len() > 0,
        delimiter_here(bytes, d, to),
        forall|i: int| from <= i < to ==> !delimiter_here(bytes, d, i),
    ensures
        next_delimiter(bytes, d, from) == Some(to),
    decreases to - from,
{
    if from < to {
        lemma_first_delimiter(bytes, d, from + 1, to);
    }
}

/// Where a byte that is no hyphen stands, the delimiter does not begin.
proof fn lemma_not_hyphen(bytes: Seq<u8>, d: Seq<u8>, i: int)
    requires
        d.len() > 0,
        d[0] == 45,
        0 <= i < bytes.len(),
        bytes[i] != 45,
    ensures
        !delimiter_here(bytes, d, i),
{
    if delimiter_here(bytes, d, i) {
        assert(bytes.subrange(i, i + d.len())[0] == bytes[i]);
    }
}

/// Where a carriage return stands within the delimiter's length, the
/// delimiter does not begin: it holds none.
proof fn lemma_return_within(bytes: Seq<u8>, d: Seq<u8>, i: int, at: int)
    requires
        forall|j: int| 0 <= j < d.len() ==> d[j] != 13,
        0 <= i <= at < i + d.len(),
        at < bytes.len(),
        bytes[at] == 13,
    ensures
        !delimiter_here(bytes, d, i),
{
    if delimiter_here(bytes, d, i) {
        assert(bytes.subrange(i, i + d.len())[at - i] == bytes[at]);
    }
}

/// The shape of a written header line: its last two bytes end the line,
/// and no byte before them is a line feed.
proof fn lemma_header_line_shape(header: (Seq<char>, Seq<char>))
    requires
        !header.0.contains('\n'),
        !header.1.contains('\n'),
    ensures
        header_line(header).len() >= 4,
        header_line(header)[header_line(header).len() - 2] == 13,
        header_line(header)[header_line(header).len() - 1] == 10,
        forall|j: int| 0 <= j < header_line(header).len() - 1 ==> header_line(header)[j] != 10,
{
    let name = vstd::utf8::encode_utf8(header.0);
    let value = vstd::utf8::encode_utf8(header.1);
    lemma_utf8_avoids(header.0, '\n');
    lemma_utf8_avoids(header.1, '\n');
    let line = header_line(header);
    assert(line == name + seq![58u8, 32u8] + value + crlf());
    assert forall|j: int| 0 <= j < line.len() - 1 implies line[j] != 10 by {
        if j < name.len() {
            assert(line[j] == name[j]);
        } else if j < name.len() + 2 {
        } else if j < name.len() + 2 + value.len() {
            assert(line[j] == value[j - name.len() - 2]);
        }
    }
}

/// Whether what follows a delimiter closes its line is decided within a
/// piece that holds a carriage return before its last byte.
proof fn lemma_closes_within(x: Seq<u8>, y: Seq<u8>)
    requires
        x.len() >= 2,
        x[x.len() - 2] == 13,
    ensures
        closes_line(x + y) == closes_line(x),
    decreases x.len(),
{
    if x[0] == 32 || x[0] == 9 {
        assert((x + y).drop_first() =~= x.drop_first() + y);
        lemma_closes_within(x.drop_first(), y);
    } else {
        assert(after_padding(x + y) == x + y);
        assert(after_padding(x) == x);
        assert((x + y).subrange(0, 2) =~= x.subrange(0, 2));
    }
}

/// No delimiter begins among written header lines: a line feed ends each,
/// and none is a delimiter line.
proof fn lemma_headers_hold_no_delimiter(
    bytes: Seq<u8>,
    d: Seq<u8>,
    base: int,
    headers: Seq<(Seq<char>, Seq<char>)>,
)
    requires
        1 <= base,
        bytes[base - 1] == 10,
        base + header_lines(headers).len() < bytes.len(),
        bytes.subrange(base, base + header_lines(headers).len()) == header_lines(headers),
        bytes[base + header_lines(headers).len()] == 13,
        d.len() > 0,
        d[0] == 45,
        forall|j: int| 0 <= j < d.len() ==> d[j] != 13,
        forall|k: int| 0 <= k < headers.len() ==> plain_header(d, #[trigger] headers[k]),
    ensures
        forall|i: int|
            base <= i < base + header_lines(headers).len() ==> !delimiter_here(bytes, d, i),
    decreases headers.len(),
{
    if headers.len() > 0 {
        let line = header_line(headers[0]);
        let rest = headers.drop_first();
        let next = base + line.len();
        assert(plain_header(d, headers[0]));
        lemma_header_line_shape(headers[0]);
        assert(header_lines(headers) == line + header_lines(rest));
        assert forall|j: int| 0 <= j < line.len() implies bytes[base + j] == line[j] by {
            assert(bytes.subrange(base, base + header_lines(headers).len())[j] == bytes[base + j]);
        }
        assert(bytes.subrange(next, next + header_lines(rest).len()) =~= header_lines(rest)) by {
            assert forall|j: int| 0 <= j < header_lines(rest).len() implies bytes[next + j]
                == header_lines(rest)[j] by {
                assert(bytes.subrange(base, base + header_lines(headers).len())[line.len() + j]
                    == bytes[next + j]);
            }
        }
        assert forall|k: int| 0 <= k < rest.len() implies plain_header(d, #[trigger] rest[k]) by {
            assert(rest[k] == headers[k + 1]);
        }
        lemma_headers_hold_no_delimiter(bytes, d, next, rest);
        assert forall|i: int| base <= i < next implies !delimiter_here(bytes, d, i) by {
            if i == base {
                if line.len() >= d.len() + 2 {
                    if delimiter_here(bytes, d, i) {
                        assert(line.subrange(0, d.len() as int) =~= bytes.subrange(
                            base,
                            base + d.len(),
                        ));
                        assert(d.is_prefix_of(line));
                        let after = line.subrange(d.len() as int, line.len() as int);
                        let more = bytes.subrange(next, bytes.len() as int);
                        assert(bytes.subrange(base + d.len(), bytes.len() as int) =~= after
                            + more);
                        lemma_closes_within(after, more);
                    }
                } else {
                    lemma_return_within(bytes, d, base, base + line.len() - 2);
                }
            } else {
                assert(bytes[i - 1] == line[i - 1 - base]);
            }
        }
    }
}

proof fn lemma_newline_at(s: Seq<u8>, from: int, at: int)
    requires
        0 <= from <= at < s.len(),
        s[at] == 10,
        forall|j: int| from <= j < at ==> s[j] != 10,
    ensures
        newline_after(s, from) == at,
    decreases at - from,
{
    if from < at {
        lemma_newline_at(s, from + 1, at);
    }
}

/// The headers of a written part end at the blank line written after them.
proof fn lemma_blank_after_headers(
    section: Seq<u8>,
    base: int,
    headers: Seq<(Seq<char>, Seq<char>)>,
)
    requires
        0 <= base,
        base + header_lines(headers).len() + 1 < section.len(),
        section.subrange(base, base + header_lines(headers).len()) == header_lines(headers),
        section[base + header_lines(headers).len()] == 13,
        section[base + header_lines(headers).len() + 1] == 10,
        forall|k: int|
            0 <= k < headers.len() ==> !(#[trigger] headers[k]).0.contains('\n')
                && !headers[k].1.contains('\n'),
    ensures
        blank_line(section, base) == Some(
            (base + header_lines(headers).len(), base + header_lines(headers).len() + 2),
        ),
    decreases headers.len(),
{
    let blank = base + header_lines(headers).len();
    if headers.len() == 0 {
        lemma_newline_at(section, base, base + 1);
    } else {
        let line = header_line(headers[0]);
        let rest = headers.drop_first();
        let next = base + line.len();
        lemma_header_line_shape(headers[0]);
        assert(header_lines(headers) == line + header_lines(rest));
        assert forall|j: int| 0 <= j < line.len() implies section[base + j] == line[j] by {
            assert(section.subrange(base, blank)[j] == section[base + j]);
        }
        assert forall|j: int| base <= j < next - 1 implies section[j] != 10 by {
            assert(section[base + (j - base)] == line[j - base]);
        }
        lemma_newline_at(section, base, next - 1);
        assert(section.subrange(next, next + header_lines(rest).len()) =~= header_lines(rest)) by {
            assert forall|j: int| 0 <= j < header_lines(rest).len() implies section[next + j]
                == header_lines(rest)[j] by {
                assert(section.subrange(base, blank)[line.len() + j] == section[next + j]);
            }
        }
        assert forall|k: int| 0 <= k < rest.len() implies !(#[trigger] rest[k]).0.contains('\n')
            && !rest[k].1.contains('\n') by {
            assert(rest[k] == headers[k + 1]);
        }
        lemma_blank_after_headers(section, next, rest);
    }
}

/// A header line's text: name, colon and space, value.
pub open spec fn line_text(header: (Seq<char>, Seq<char>)) -> Seq<char> {
    header.0 + seq![':', ' '] + header.1
}

/// Headers' text as written, each line ended by a carriage return and a
/// line feed.
pub open spec fn header_text(headers: Seq<(Seq<char>, Seq<char>)>) -> Seq<char>
    decreases headers.len(),
{
    if headers.len() == 0 {
        seq![]
    } else {
        line_text(headers[0]) + seq!['\r', '\n'] + header_text(headers.drop_first())
    }
}

proof fn lemma_header_text_bytes(headers: Seq<(Seq<char>, Seq<char>)>)
    ensures
        header_lines(headers) == vstd::utf8::encode_utf8(header_text(headers)),
    decreases headers.len(),
{
    if headers.len() > 0 {
        let h = headers[0];
        lemma_header_text_bytes(headers.drop_first());
        let colon = seq![':', ' '];
        let ends = seq!['\r', '\n'];
        vstd::utf8::is_ascii_chars_encode_utf8(colon);
        vstd::utf8::is_ascii_chars_encode_utf8(ends);
        assert(vstd::utf8::encode_utf8(colon) =~= seq![58u8, 32u8]);
        assert(vstd::utf8::encode_utf8(ends) =~= crlf());
        crate::text::lemma_encode_concat(h.0, colon);
        crate::text::lemma_encode_concat(h.0 + colon, h.1);
        crate::text::lemma_encode_concat(line_text(h), ends);
        crate::text::lemma_encode_concat(line_text(h) + ends, header_text(headers.drop_first()));
    }
}

proof fn lemma_find_char_at(s: Seq<char>, c: char, at: int)
    requires
        0 <= at < s.len(),
        s[at] == c,
        forall|j: int| 0 <= j < at ==> s[j] != c,
    ensures
        find_char(s, c) == at,
{
    lemma_find_char(s, c);
}

proof fn lemma_lines_of_headers(headers: Seq<(Seq<char>, Seq<char>)>)
    requires
        forall|k: int|
            0 <= k < headers.len() ==> !(#[trigger] headers[k]).0.contains('\n')
                && !headers[k].1.contains('\n'),
    ensures
        lines_of(header_text(headers)) == headers.map_values(
            |h: (Seq<char>, Seq<char>)| line_text(h),
        ),
    decreases headers.len(),
{
    if headers.len() == 0 {
        assert(header_text(headers) =~= Seq::<char>::empty());
        assert(headers.map_values(|h: (Seq<char>, Seq<char>)| line_text(h)) =~= Seq::<
            Seq<char>,
        >::empty());
    } else {
        let h = headers[0];
        let rest = headers.drop_first();
        let line = line_text(h);
        let text = header_text(headers);
        assert(text == line + seq!['\r', '\n'] + header_text(rest));
        assert(!h.0.contains('\n') && !h.1.contains('\n'));
        assert forall|j: int| 0 <= j < line.len() + 1 implies text[j] != '\n' by {
            if j < h.0.len() {
                assert(text[j] == h.0[j]);
                assert(!h.0.contains('\n'));
            } else if j < h.0.len() + 2 {
            } else if j < line.len() {
                assert(text[j] == h.1[j - h.0.len() - 2]);
            }
        }
        lemma_find_char_at(text, '\n', line.len() + 1 as int);
        assert(text.subrange(0, line.len() + 1 as int) =~= line.push('\r'));
        assert(strip_cr(text.subrange(0, line.len() + 1 as int)) =~= line);
        assert(text.subrange(line.len() + 2 as int, text.len() as int) =~= header_text(rest));
        assert forall|k: int| 0 <= k < rest.len() implies !(#[trigger] rest[k]).0.contains('\n')
            && !rest[k].1.contains('\n') by {
            assert(rest[k] == headers[k + 1]);
        }
        lemma_lines_of_headers(rest);
        assert(headers.map_values(|h: (Seq<char>, Seq<char>)| line_text(h)) =~= seq![line]
            + rest.map_values(|h: (Seq<char>, Seq<char>)| line_text(h)));
    }
}

proof fn lemma_trim_lengths(s: Seq<char>)
    ensures
        trim_front(s).len() <= s.len(),
        trim_back(s).len() <= s.len(),
        s.len() > 0 && is_white_space(s[0]) ==> trim_front(s).len() < s.len(),
        s.len() > 0 && is_white_space(s.last()) ==> trim_back(s).len() < s.len(),
    decreases s.len(),
{
    if s.len() > 0 {
        lemma_trim_lengths(s.drop_first());
        lemma_trim_lengths(s.drop_last());
    }
}

/// Text that trimming leaves as it is opens with no white space.
proof fn lemma_trimmed_opens(s: Seq<char>)
    requires
        trimmed(s) == s,
        s.len() > 0,
    ensures
        !is_white_space(s[0]),
{
    lemma_trim_lengths(s);
    lemma_trim_lengths(trim_front(s));
}

/// A header's line reads back as the header.
proof fn lemma_header_step(out: Seq<(Seq<char>, Seq<char>)>, h: (Seq<char>, Seq<char>))
    requires
        !h.0.contains(':'),
        trimmed(h.0) == h.0,
        trimmed(h.1) == h.1,
    ensures
        header_step(out, line_text(h)) == out.push(h),
{
    let line = line_text(h);
    if h.0.len() > 0 {
        lemma_trimmed_opens(h.0);
        assert(line[0] == h.0[0]);
    } else {
        assert(line[0] == ':');
    }
    assert forall|j: int| 0 <= j < h.0.len() implies line[j] != ':' by {
        assert(line[j] == h.0[j]);
        assert(!h.0.contains(':'));
    }
    lemma_find_char_at(line, ':', h.0.len() as int);
    assert(line.subrange(0, h.0.len() as int) =~= h.0);
    let after = line.subrange(h.0.len() + 1 as int, line.len() as int);
    assert(after =~= seq![' '] + h.1);
    assert(after.drop_first() =~= h.1);
    assert(trim_front(after) == trim_front(h.1));
}

proof fn lemma_headers_after(out: Seq<(Seq<char>, Seq<char>)>, headers: Seq<(Seq<char>, Seq<char>)>)
    requires
        forall|k: int|
            0 <= k < headers.len() ==> !(#[trigger] headers[k]).0.contains(':') && trimmed(
                headers[k].0,
            ) == headers[k].0 && trimmed(headers[k].1) == headers[k].1,
    ensures
        headers_after(out, headers.map_values(|h: (Seq<char>, Seq<char>)| line_text(h))) == out
            + headers,
    decreases headers.len(),
{
    let lines = headers.map_values(|h: (Seq<char>, Seq<char>)| line_text(h));
    if headers.len() == 0 {
        assert(out + headers =~= out);
    } else {
        let rest = headers.drop_first();
        lemma_header_step(out, headers[0]);
        assert(lines.drop_first() =~= rest.map_values(|h: (Seq<char>, Seq<char>)| line_text(h)));
        assert forall|k: int| 0 <= k < rest.len() implies !(#[trigger] rest[k]).0.contains(':')
            && trimmed(rest[k].0) == rest[k].0 && trimmed(rest[k].1) == rest[k].1 by {
            assert(rest[k] == headers[k + 1]);
        }
        lemma_headers_after(out.push(headers[0]), rest);
        assert(out.push(headers[0]) + rest =~= out + headers);
    }
}

/// What follows a written delimiter closes its line.
proof fn lemma_written_closes(rest: Seq<u8>)
    requires
        rest.len() >= 2,
        (rest[0] == 13 && rest[1] == 10) || (rest[0] == 45 && rest[1] == 45),
    ensures
        closes_line(rest),
{
    assert(after_padding(rest) == rest);
    if rest[0] == 45 {
        assert(rest.subrange(0, 2) =~= dashes());
    }
}

/// The delimiter of a boundary without line breaks opens with a hyphen and
/// holds neither a carriage return nor a line feed.
proof fn lemma_delimiter_bytes(boundary: Seq<char>)
    requires
        !boundary.contains('\n'),
        !boundary.contains('\r'),
    ensures
        delimiter(boundary).len() >= 2,
        delimiter(boundary)[0] == 45,
        forall|j: int|
            0 <= j < delimiter(boundary).len() ==> delimiter(boundary)[j] != 13
                && delimiter(boundary)[j] != 10,
{
    let d = delimiter(boundary);
    let tail = vstd::utf8::encode_utf8(boundary);
    lemma_utf8_avoids(boundary, '\n');
    lemma_utf8_avoids(boundary, '\r');
    assert forall|j: int| 0 <= j < d.len() implies d[j] != 13 && d[j] != 10 by {
        if j >= 2 {
            assert(d[j] == tail[j - 2]);
        }
    }
}

/// Where a written part stands in a stream: its bytes, piece by piece.
proof fn lemma_part_layout(bytes: Seq<u8>, d: Seq<u8>, at: int, part: PartView)
    requires
        0 <= at,
        at + part_bytes(d, part).len() <= bytes.len(),
        bytes.subrange(at, at + part_bytes(d, part).len()) == part_bytes(d, part),
    ensures
        ({
            let heads = header_lines(part.0);
            let start = at + d.len() + 2;
            let blank = start + heads.len();
            let body_start = blank + 2;
            let body_end = body_start + part.1.len();
            &&& body_end + 2 == at + part_bytes(d, part).len()
            &&& bytes.subrange(at, at + d.len()) == d
            &&& bytes[start - 2] == 13 && bytes[start - 1] == 10
            &&& bytes.subrange(start, blank) == heads
            &&& bytes[blank] == 13 && bytes[blank + 1] == 10
            &&& bytes.subrange(body_start, body_end) == part.1
            &&& bytes[body_end] == 13 && bytes[body_end + 1] == 10
        }),
{
    let whole = part_bytes(d, part);
    let heads = header_lines(part.0);
    let body = part.1;
    let piece = bytes.subrange(at, at + whole.len());
    assert(whole == d + crlf() + heads + crlf() + body + crlf());
    let start = at + d.len() + 2;
    let blank = start + heads.len();
    let body_start = blank + 2;
    let body_end = body_start + body.len();
    assert forall|j: int| 0 <= j < whole.len() implies bytes[at + j] == whole[j] by {
        assert(piece[j] == bytes[at + j]);
    }
    assert(bytes.subrange(at, at + d.len()) =~= d) by {
        assert forall|j: int| 0 <= j < d.len() implies bytes[at + j] == d[j] by {
            assert(bytes[at + j] == whole[j]);
        }
    }
    assert(bytes[start - 2] == whole[d.len() as int]);
    assert(bytes[start - 1] == whole[d.len() + 1 as int]);
    assert(bytes.subrange(start, blank) =~= heads) by {
        assert forall|j: int| 0 <= j < heads.len() implies bytes[start + j] == heads[j] by {
            assert(bytes[at + (d.len() + 2 + j)] == whole[d.len() + 2 + j]);
        }
    }
    assert(bytes[blank] == whole[d.len() + 2 + heads.len() as int]);
    assert(bytes[blank + 1] == whole[d.len() + 3 + heads.len() as int]);
    assert(bytes.subrange(body_start, body_end) =~= body) by {
        assert forall|j: int| 0 <= j < body.len() implies bytes[body_start + j] == body[j] by {
            assert(bytes[at + (d.len() + 4 + heads.len() + j)] == whole[d.len() + 4 + heads.len()
                + j]);
        }
    }
    assert(bytes[body_end] == whole[d.len() + 4 + heads.len() + body.len() as int]);
    assert(bytes[body_end + 1] == whole[d.len() + 5 + heads.len() + body.len() as int]);
}

/// After a written part, the first delimiter is the one written after it.
proof fn lemma_part_search(bytes: Seq<u8>, d: Seq<u8>, at: int, part: PartView)
    requires
        0 <= at,
        at + part_bytes(d, part).len() <= bytes.len(),
        bytes.subrange(at, at + part_bytes(d, part).len()) == part_bytes(d, part),
        delimiter_here(bytes, d, at + part_bytes(d, part).len()),
        d.len() > 0,
        d[0] == 45,
        forall|j: int| 0 <= j < d.len() ==> d[j] != 13,
        writable_part(d, part),
    ensures
        next_delimiter(bytes, d, at + d.len() + 2) == Some(at + part_bytes(d, part).len()),
{
    lemma_part_layout(bytes, d, at, part);
    let heads = header_lines(part.0);
    let body = part.1;
    let start = at + d.len() + 2;
    let blank = start + heads.len();
    let body_start = blank + 2;
    let body_end = body_start + body.len();
    let next = body_end + 2;
    assert forall|k: int| 0 <= k < part.0.len() implies plain_header(d, #[trigger] part.0[k]) by {}
    assert forall|j: int| 0 <= j < heads.len() implies bytes.subrange(start, blank)[j]
        == bytes[start + j] by {}
    lemma_headers_hold_no_delimiter(bytes, d, start, part.0);
    assert forall|i: int| start <= i < next implies !delimiter_here(bytes, d, i) by {
        if i < blank {
        } else if i < body_start {
            lemma_not_hyphen(bytes, d, i);
        } else if i < body_end {
            if i + d.len() <= body_end {
                if delimiter_here(bytes, d, i) {
                    let o = i - body_start;
                    assert(body.subrange(o, o + d.len()) =~= bytes.subrange(i, i + d.len()));
                    assert(occurs_in(d, body));
                }
            } else {
                lemma_return_within(bytes, d, i, body_end);
            }
        } else {
            lemma_not_hyphen(bytes, d, i);
        }
    }
    lemma_first_delimiter(bytes, d, start, next);
}

/// A written part reads back as itself.
proof fn lemma_part_parse(bytes: Seq<u8>, d: Seq<u8>, at: int, part: PartView)
    requires
        0 <= at,
        at + part_bytes(d, part).len() <= bytes.len(),
        bytes.subrange(at, at + part_bytes(d, part).len()) == part_bytes(d, part),
        writable_part(d, part),
    ensures
        part_at(bytes, at + d.len() + 2, at + part_bytes(d, part).len()) == Ok::<
            PartView,
            (Seq<char>, int),
        >(part),
{
    lemma_part_layout(bytes, d, at, part);
    let heads = header_lines(part.0);
    let body = part.1;
    let start = at + d.len() + 2;
    let next = at + part_bytes(d, part).len();
    let section = bytes.subrange(start, next);
    assert(section =~= heads + crlf() + body + crlf()) by {
        assert forall|j: int| 0 <= j < section.len() implies section[j] == (heads + crlf() + body
            + crlf())[j] by {
            if j < heads.len() {
                assert(bytes.subrange(start, start + heads.len())[j] == bytes[start + j]);
            } else if j >= heads.len() + 2 && j < heads.len() + 2 + body.len() {
                let o = j - heads.len() - 2;
                assert(bytes.subrange(start + heads.len() + 2, start + heads.len() + 2
                    + body.len())[o] == bytes[start + j]);
            }
        }
    }
    assert forall|k: int|
        0 <= k < part.0.len() implies !(#[trigger] part.0[k]).0.contains('\n')
            && !part.0[k].1.contains('\n') by {
        assert(plain_header(d, part.0[k]));
    }
    assert(section.subrange(0, heads.len() as int) =~= heads);
    lemma_blank_after_headers(section, 0, part.0);
    lemma_header_text_bytes(part.0);
    vstd::utf8::encode_utf8_valid_utf8(header_text(part.0));
    vstd::utf8::encode_utf8_decode_utf8(header_text(part.0));
    lemma_lines_of_headers(part.0);
    assert forall|k: int|
        0 <= k < part.0.len() implies !(#[trigger] part.0[k]).0.contains(':') && trimmed(
            part.0[k].0,
        ) == part.0[k].0 && trimmed(part.0[k].1) == part.0[k].1 by {
        assert(plain_header(d, part.0[k]));
    }
    lemma_headers_after(seq![], part.0);
    assert(seq![] + part.0 =~= part.0);
    let body_part = section.subrange(heads.len() + 2 as int, section.len() as int);
    assert(body_part =~= body + crlf());
    assert(without_break(body_part) =~= body);
}

/// A written stream's delimiter, where the stream continues, stands there.
proof fn lemma_written_delimiter(bytes: Seq<u8>, d: Seq<u8>, at: int, parts: Seq<PartView>)
    requires
        0 <= at <= bytes.len(),
        at == 0 || bytes[at - 1] == 10,
        bytes.subrange(at, bytes.len() as int) == written(d, parts),
    ensures
        delimiter_here(bytes, d, at),
{
    let more = written(d, parts);
    if parts.len() == 0 {
        assert(more == d + dashes() + crlf());
    } else {
        assert(more == part_bytes(d, parts[0]) + written(d, parts.drop_first()));
    }
    assert(bytes.subrange(at, at + d.len()) =~= d) by {
        assert forall|j: int| 0 <= j < d.len() implies bytes[at + j] == d[j] by {
            assert(bytes.subrange(at, bytes.len() as int)[j] == bytes[at + j]);
        }
    }
    let tail = bytes.subrange(at + d.len(), bytes.len() as int);
    assert(tail[0] == more[d.len() as int]);
    assert(tail[1] == more[d.len() + 1 as int]);
    lemma_written_closes(tail);
}

/// One step of reading: the part after the delimiter at `at`, then the
/// parts after the next delimiter.
proof fn lemma_parts_after_step(
    bytes: Seq<u8>,
    boundary: Seq<char>,
    at: int,
    next: int,
    part: PartView,
    rest: Seq<PartView>,
)
    requires
        !dashes().is_prefix_of(bytes.subrange(at + delimiter(boundary).len(), bytes.len() as int)),
        next_delimiter(
            bytes,
            delimiter(boundary),
            past_line(bytes, at + delimiter(boundary).len()),
        ) == Some(next),
        at < next <= bytes.len(),
        part_at(bytes, past_line(bytes, at + delimiter(boundary).len()), next) == Ok::<
            PartView,
            (Seq<char>, int),
        >(part),
        parts_after(bytes, boundary, next) == Ok::<Seq<PartView>, (Seq<char>, int)>(rest),
    ensures
        parts_after(bytes, boundary, at) == Ok::<Seq<PartView>, (Seq<char>, int)>(
            seq![part] + rest,
        ),
{
}

/// Reading stops at the closing delimiter written after the last part.
proof fn lemma_read_back_end(bytes: Seq<u8>, boundary: Seq<char>, prefix: Seq<u8>)
    requires
        bytes == prefix + written(delimiter(boundary), Seq::<PartView>::empty()),
    ensures
        parts_after(bytes, boundary, prefix.len() as int) == Ok::<
            Seq<PartView>,
            (Seq<char>, int),
        >(Seq::<PartView>::empty()),
{
    let d = delimiter(boundary);
    let after = prefix.len() + d.len();
    assert(bytes == prefix + (d + dashes() + crlf()));
    let tail = bytes.subrange(after as int, bytes.len() as int);
    assert(tail =~= dashes() + crlf());
    assert(tail.subrange(0, 2) =~= dashes());
    assert(dashes().is_prefix_of(tail));
}

/// What reading finds after the delimiter of a written part: the part, and
/// the next delimiter after it.
#[verifier::rlimit(40)]
proof fn lemma_read_back_one(
    bytes: Seq<u8>,
    boundary: Seq<char>,
    prefix: Seq<u8>,
    part: PartView,
    rest: Seq<PartView>,
)
    requires
        bytes == prefix + part_bytes(delimiter(boundary), part) + written(
            delimiter(boundary),
            rest,
        ),
        prefix.len() == 0 || prefix.last() == 10,
        !boundary.contains('\n'),
        !boundary.contains('\r'),
        writable_part(delimiter(boundary), part),
    ensures
        ({
            let d = delimiter(boundary);
            let at = prefix.len() as int;
            let next = at + part_bytes(d, part).len();
            &&& !dashes().is_prefix_of(bytes.subrange(at + d.len(), bytes.len() as int))
            &&& next_delimiter(bytes, d, past_line(bytes, at + d.len())) == Some(next)
            &&& at < next <= bytes.len()
            &&& part_at(bytes, past_line(bytes, at + d.len()), next) == Ok::<
                PartView,
                (Seq<char>, int),
            >(part)
            &&& (prefix + part_bytes(d, part)).last() == 10
        }),
{
    let d = delimiter(boundary);
    let at = prefix.len() as int;
    let after = at + d.len();
    let whole = part_bytes(d, part);
    let next_prefix = prefix + whole;
    let next = next_prefix.len() as int;
    lemma_delimiter_bytes(boundary);
    assert(bytes.subrange(at, next) =~= whole);
    assert(bytes.subrange(next, bytes.len() as int) =~= written(d, rest));
    lemma_part_layout(bytes, d, at, part);
    assert(!dashes().is_prefix_of(bytes.subrange(after, bytes.len() as int))) by {
        if dashes().is_prefix_of(bytes.subrange(after, bytes.len() as int)) {
            assert(bytes.subrange(after, bytes.len() as int)[0] == dashes()[0]);
        }
    }
    assert(past_line(bytes, after + 1) == after + 2);
    assert(past_line(bytes, after) == after + 2);
    assert(bytes[next - 1] == whole[whole.len() - 1]);
    lemma_written_delimiter(bytes, d, next, rest);
    lemma_part_search(bytes, d, at, part);
    lemma_part_parse(bytes, d, at, part);
}

/// After a written delimiter at the end of `prefix`, the parts written
/// there read back.
#[verifier::rlimit(60)]
proof fn lemma_parts_read_back(
    bytes: Seq<u8>,
    boundary: Seq<char>,
    prefix: Seq<u8>,
    parts: Seq<PartView>,
)
    requires
        bytes == prefix + written(delimiter(boundary), parts),
        prefix.len() == 0 || prefix.last() == 10,
        !boundary.contains('\n'),
        !boundary.contains('\r'),
        forall|k: int|
            0 <= k < parts.len() ==> writable_part(delimiter(boundary), #[trigger] parts[k]),
    ensures
        parts_after(bytes, boundary, prefix.len() as int) == Ok::<
            Seq<PartView>,
            (Seq<char>, int),
        >(parts),
    decreases parts.len(),
{
    let d = delimiter(boundary);
    if parts.len() == 0 {
        assert(parts =~= Seq::<PartView>::empty());
        lemma_read_back_end(bytes, boundary, prefix);
    } else {
        let part = parts[0];
        let rest = parts.drop_first();
        let next_prefix = prefix + part_bytes(d, part);
        assert(written(d, parts) == part_bytes(d, part) + written(d, rest));
        assert(bytes =~= prefix + part_bytes(d, part) + written(d, rest));
        assert(writable_part(d, parts[0]));
        lemma_read_back_one(bytes, boundary, prefix, part, rest);
        assert(bytes =~= next_prefix + written(d, rest));
        assert forall|k: int| 0 <= k < rest.len() implies writable_part(d, #[trigger] rest[k]) by {
            assert(rest[k] == parts[k + 1]);
        }
        lemma_parts_read_back(bytes, boundary, next_prefix, rest);
        lemma_parts_after_step(
            bytes,
            boundary,
            prefix.len() as int,
            next_prefix.len() as int,
            part,
            rest,
        );
        assert(seq![part] + rest =~= parts);
    }
}

/// Reading inverts writing: a body written under a boundary without line
/// breaks reads back as exactly the parts written, every header and every
/// byte, where each part is writable: no header with a line feed, a colon
/// in its name, white space at an end, or a line that is a delimiter line
/// (the delimiter, then what closes a delimiter's line), and no part whose
/// bytes hold the delimiter.
pub proof fn law_read_inverts_write(boundary: Seq<char>, parts: Seq<PartView>)
    requires
        !boundary.contains('\n'),
        !boundary.contains('\r'),
        forall|k: int|
            0 <= k < parts.len() ==> writable_part(delimiter(boundary), #[trigger] parts[k]),
    ensures
        read_of(written(delimiter(boundary), parts), boundary) == Ok::<
            Seq<PartView>,
            (Seq<char>, int),
        >(parts),
{
    let d = delimiter(boundary);
    let bytes = written(d, parts);
    lemma_delimiter_bytes(boundary);
    assert(Seq::<u8>::empty() + bytes =~= bytes);
    assert(bytes.subrange(0, bytes.len() as int) =~= bytes);
    lemma_written_delimiter(bytes, d, 0, parts);
    lemma_first_delimiter(bytes, d, 0, 0);
    lemma_parts_read_back(bytes, boundary, Seq::<u8>::empty(), parts);
}

/// Whether `boundary` is one RFC 2046 allows and [`opening_boundary`]
/// accepts: 1 to 70 characters, each an ASCII letter or digit or one of
/// `'()+_,-./:=?`.
pub open spec fn sound_boundary(boundary: Seq<char>) -> bool {
    &&& 0 < boundary.len() <= 70
    &&& forall|i: int|
        0 <= i < boundary.len() ==> '\0' <= #[trigger] boundary[i] <= '\u{7f}' && boundary_byte(
            boundary[i] as u8,
        )
}

/// Sixteen to the `k`.
pub open spec fn sixteen_to(k: nat) -> nat
    decreases k,
{
    if k == 0 {
        1
    } else {
        16 * sixteen_to((k - 1) as nat)
    }
}

proof fn lemma_hex_length(n: nat, k: nat)
    requires
        k >= 1,
        n < sixteen_to(k),
    ensures
        hex_chars(n).len() <= k,
        forall|i: int|
            0 <= i < hex_chars(n).len() ==> ('0' <= #[trigger] hex_chars(n)[i] <= '9') || ('a'
                <= hex_chars(n)[i] <= 'f'),
    decreases n,
{
    if n >= 16 {
        let below = sixteen_to((k - 1) as nat);
        assert(sixteen_to(k) == 16 * below);
        assert(n / 16 < below) by (nonlinear_arith)
            requires
                n < 16 * below,
                n >= 16,
        ;
        if k == 1 {
            assert(sixteen_to(0) == 1);
        }
        lemma_hex_length(n / 16, (k - 1) as nat);
        let head = hex_chars(n / 16);
        assert forall|i: int| 0 <= i < hex_chars(n).len() implies ('0' <= #[trigger] hex_chars(
            n,
        )[i] <= '9') || ('a' <= hex_chars(n)[i] <= 'f') by {
            if i < head.len() {
                assert(hex_chars(n)[i] == head[i]);
            }
        }
    }
}

/// A boundary [`boundary_from`] makes is sound: at most 56 characters,
/// each `=`, `_`, a letter or a digit.
pub proof fn law_boundaries_are_sound(nanos: u128, count: u64)
    ensures
        sound_boundary(boundary_words(nanos as nat, count as nat)),
        boundary_words(nanos as nat, count as nat).len() <= 56,
{
    reveal_strlit("=_xmip_");
    reveal_with_fuel(sixteen_to, 33);
    assert(sixteen_to(32) == 0x1_0000_0000_0000_0000_0000_0000_0000_0000);
    assert(sixteen_to(16) == 0x1_0000_0000_0000_0000);
    lemma_hex_length(nanos as nat, 32);
    lemma_hex_length(count as nat, 16);
    let words = boundary_words(nanos as nat, count as nat);
    let first = hex_chars(nanos as nat);
    let second = hex_chars(count as nat);
    assert(words == "=_xmip_"@ + first + seq!['_'] + second);
    assert forall|i: int| 0 <= i < words.len() implies '\0' <= #[trigger] words[i] <= '\u{7f}'
        && boundary_byte(words[i] as u8) by {
        if i < 7 {
        } else if i < 7 + first.len() {
            assert(words[i] == first[i - 7]);
        } else if i < 8 + first.len() {
        } else {
            assert(words[i] == second[i - 8 - first.len()]);
        }
    }
}

proof fn lemma_break_at(s: Seq<u8>, from: int, at: int)
    requires
        0 <= from <= at < s.len(),
        s[at] == 13 || s[at] == 10,
        forall|j: int| from <= j < at ==> s[j] != 13 && s[j] != 10,
    ensures
        line_break_from(s, from) == at,
    decreases at - from,
{
    if from < at {
        lemma_break_at(s, from + 1, at);
    }
}

/// A written body with a part in it declares its boundary on its first
/// line: [`opening_boundary`] of what [`write`] writes under a sound
/// boundary is that boundary.
pub proof fn law_written_body_opens_with_its_boundary(
    boundary: Seq<char>,
    parts: Seq<PartView>,
)
    requires
        sound_boundary(boundary),
        parts.len() > 0,
    ensures
        opening_of(written(delimiter(boundary), parts)) == Some(
            vstd::utf8::encode_utf8(boundary),
        ),
{
    let d = delimiter(boundary);
    let b = vstd::utf8::encode_utf8(boundary);
    assert(vstd::utf8::is_ascii_chars(boundary));
    vstd::utf8::is_ascii_chars_encode_utf8(boundary);
    assert forall|i: int| 0 <= i < b.len() implies boundary_byte(#[trigger] b[i]) by {
        assert(b[i] == boundary[i] as u8);
    }
    let bytes = written(d, parts);
    assert(bytes == part_bytes(d, parts[0]) + written(d, parts.drop_first()));
    let end: int = 2 + b.len() as int;
    assert forall|j: int| 0 <= j < end + 2 implies bytes[j] == (d + crlf())[j] by {}
    assert forall|j: int| 2 <= j < end implies bytes[j] != 13 && bytes[j] != 10 by {
        assert(bytes[j] == b[j - 2]);
        assert(boundary_byte(b[j - 2]));
    }
    lemma_break_at(bytes, 2, end);
    let piece = bytes.subrange(2, end);
    assert(piece =~= b);
    assert(boundary_byte(b.last()));
    assert(trim_ascii_end(piece) == piece);
    assert forall|i: int| 0 <= i < piece.len() implies boundary_byte(#[trigger] piece[i]) by {}
}

/// A line `--boundary` opening a body reads back as the boundary: whatever
/// follows the line, [`opening_boundary`] of it is the sound boundary it
/// was written with.
pub proof fn law_boundary_line_reads_back(boundary: Seq<char>, rest: Seq<u8>)
    requires
        sound_boundary(boundary),
    ensures
        opening_of(delimiter(boundary) + crlf() + rest) == Some(vstd::utf8::encode_utf8(boundary)),
{
    let b = vstd::utf8::encode_utf8(boundary);
    assert(vstd::utf8::is_ascii_chars(boundary));
    vstd::utf8::is_ascii_chars_encode_utf8(boundary);
    assert forall|i: int| 0 <= i < b.len() implies boundary_byte(#[trigger] b[i]) by {
        assert(b[i] == boundary[i] as u8);
    }
    let bytes = delimiter(boundary) + crlf() + rest;
    let end: int = 2 + b.len() as int;
    assert(bytes[end] == 13);
    assert forall|j: int| 2 <= j < end implies bytes[j] != 13 && bytes[j] != 10 by {
        assert(bytes[j] == b[j - 2]);
        assert(boundary_byte(b[j - 2]));
    }
    lemma_break_at(bytes, 2, end);
    let piece = bytes.subrange(2, end);
    assert(piece =~= b);
    assert(boundary_byte(b.last()));
    assert(trim_ascii_end(piece) == piece);
    assert forall|i: int| 0 <= i < piece.len() implies boundary_byte(#[trigger] piece[i]) by {}
}

/// The digits of a hexadecimal numeral are digits and letters `a` to `f`.
proof fn lemma_hex_chars_are_digits(n: nat)
    ensures
        hex_chars(n).len() >= 1,
        n < 16 <==> hex_chars(n).len() == 1,
        forall|i: int|
            0 <= i < hex_chars(n).len() ==> ('0' <= #[trigger] hex_chars(n)[i] <= '9') || ('a'
                <= hex_chars(n)[i] <= 'f'),
    decreases n,
{
    if n >= 16 {
        lemma_hex_chars_are_digits(n / 16);
        let head = hex_chars(n / 16);
        assert forall|i: int| 0 <= i < hex_chars(n).len() implies ('0' <= #[trigger] hex_chars(
            n,
        )[i] <= '9') || ('a' <= hex_chars(n)[i] <= 'f') by {
            if i < head.len() {
                assert(hex_chars(n)[i] == head[i]);
            }
        }
    }
}

/// Two numbers with one hexadecimal numeral are one number.
proof fn lemma_hex_chars_injective(a: nat, b: nat)
    requires
        hex_chars(a) == hex_chars(b),
    ensures
        a == b,
    decreases a,
{
    lemma_hex_chars_are_digits(a);
    lemma_hex_chars_are_digits(b);
    if a >= 16 {
        let ha = hex_chars(a);
        assert(ha.drop_last() =~= hex_chars(a / 16));
        assert(hex_chars(b).drop_last() =~= hex_chars(b / 16));
        lemma_hex_chars_injective(a / 16, b / 16);
        assert(ha.last() == hex_chars(b).last());
        lemma_hex_digit_injective((a % 16) as int, (b % 16) as int);
    } else {
        assert(b < 16);
        assert(hex_chars(a)[0] == crate::text::lower_hex_digit(a as int));
        assert(hex_chars(b)[0] == crate::text::lower_hex_digit(b as int));
        lemma_hex_digit_injective(a as int, b as int);
    }
}

/// Two values under sixteen with one digit are one value.
proof fn lemma_hex_digit_injective(x: int, y: int)
    requires
        0 <= x < 16,
        0 <= y < 16,
        crate::text::lower_hex_digit(x) == crate::text::lower_hex_digit(y),
    ensures
        x == y,
{
    let cx: u32 = if x < 10 { (x + 0x30) as u32 } else { (x - 10 + 0x61) as u32 };
    let cy: u32 = if y < 10 { (y + 0x30) as u32 } else { (y - 10 + 0x61) as u32 };
    assert(crate::text::lower_hex_digit(x) as u32 == cx);
    assert(crate::text::lower_hex_digit(y) as u32 == cy);
}

/// No two boundaries one process makes are alike: boundaries made with
/// different counts differ, whatever the clock read each time.
pub proof fn law_boundaries_differ(nanos: nat, count: nat, other_nanos: nat, other_count: nat)
    requires
        count != other_count,
    ensures
        boundary_words(nanos, count) != boundary_words(other_nanos, other_count),
{
    let x = boundary_words(nanos, count);
    let y = boundary_words(other_nanos, other_count);
    if x == y {
        let a = hex_chars(nanos);
        let b = hex_chars(other_nanos);
        lemma_hex_chars_are_digits(nanos);
        lemma_hex_chars_are_digits(other_nanos);
        lemma_hex_chars_are_digits(count);
        lemma_hex_chars_are_digits(other_count);
        let prefix = "=_xmip_"@;
        let n = prefix.len();
        let xt = x.subrange(n as int, x.len() as int);
        let yt = y.subrange(n as int, y.len() as int);
        assert(xt =~= a + seq!['_'] + hex_chars(count));
        assert(yt =~= b + seq!['_'] + hex_chars(other_count));
        assert(xt == yt);
        if a.len() < b.len() {
            assert(xt[a.len() as int] == '_');
            assert(yt[a.len() as int] == b[a.len() as int]);
        } else if b.len() < a.len() {
            assert(yt[b.len() as int] == '_');
            assert(xt[b.len() as int] == a[b.len() as int]);
        }
        assert(hex_chars(count) =~= xt.subrange(a.len() + 1int, xt.len() as int));
        assert(hex_chars(other_count) =~= yt.subrange(b.len() + 1int, yt.len() as int));
        lemma_hex_chars_injective(count, other_count);
    }
}

/// The media type is what stands before the first `;`, or the whole
/// value where none does: a value without parameters has the media type
/// it has with any parameters after it.
pub proof fn law_media_type_before_parameters(value: Seq<char>, parameters: Seq<char>)
    requires
        !value.contains(';'),
    ensures
        media_type_of(value) == media_type_of(value + seq![';'] + parameters),
        media_type_of(value) == lowered(trimmed(value)),
{
    let whole = value + seq![';'] + parameters;
    assert forall|j: int| 0 <= j < value.len() implies whole[j] != ';' by {
        assert(whole[j] == value[j]);
    }
    lemma_find_char_at(whole, ';', value.len() as int);
    lemma_find_char(value, ';');
    if find_char(value, ';') < value.len() {
        assert(value.contains(';'));
    }
    assert(whole.subrange(0, value.len() as int) =~= value);
    assert(value.subrange(0, value.len() as int) =~= value);
}

/// The first line ends at its first carriage return or line feed: a line
/// `--boundary` ended by a bare line feed reads back as the boundary too,
/// whatever follows it.
pub proof fn law_boundary_line_ended_by_line_feed(boundary: Seq<char>, rest: Seq<u8>)
    requires
        sound_boundary(boundary),
    ensures
        opening_of(delimiter(boundary) + seq![10u8] + rest) == Some(
            vstd::utf8::encode_utf8(boundary),
        ),
{
    let b = vstd::utf8::encode_utf8(boundary);
    assert(vstd::utf8::is_ascii_chars(boundary));
    vstd::utf8::is_ascii_chars_encode_utf8(boundary);
    assert forall|i: int| 0 <= i < b.len() implies boundary_byte(#[trigger] b[i]) by {
        assert(b[i] == boundary[i] as u8);
    }
    let bytes = delimiter(boundary) + seq![10u8] + rest;
    let end: int = 2 + b.len() as int;
    assert(bytes[end] == 10);
    assert forall|j: int| 2 <= j < end implies bytes[j] != 13 && bytes[j] != 10 by {
        assert(bytes[j] == b[j - 2]);
        assert(boundary_byte(b[j - 2]));
    }
    lemma_break_at(bytes, 2, end);
    let piece = bytes.subrange(2, end);
    assert(piece =~= b);
    assert(boundary_byte(b.last()));
    assert(trim_ascii_end(piece) == piece);
    assert forall|i: int| 0 <= i < piece.len() implies boundary_byte(#[trigger] piece[i]) by {}
}

/// Where a byte that the delimiter does not hold stands within the
/// delimiter's length, the delimiter does not begin.
proof fn lemma_foreign_within(bytes: Seq<u8>, d: Seq<u8>, i: int, at: int)
    requires
        forall|j: int| 0 <= j < d.len() ==> d[j] != bytes[at],
        0 <= i <= at < i + d.len(),
        at < bytes.len(),
    ensures
        !delimiter_here(bytes, d, i),
{
    if delimiter_here(bytes, d, i) {
        assert(bytes.subrange(i, i + d.len())[at - i] == bytes[at]);
    }
}

/// The line break before a delimiter, a bare line feed as much as a
/// carriage return and line feed, is never part of a body: a body of one
/// part without headers, every line ended by a line feed, reads back as
/// exactly the part's bytes, whatever they are, so long as the delimiter
/// stands nowhere in them and they do not end with a carriage return
/// (which would make the line break a carriage return and line feed).
#[verifier::spinoff_prover]
#[verifier::rlimit(60)]
pub proof fn law_line_feed_bodies_read_back(boundary: Seq<char>, content: Seq<u8>)
    requires
        !boundary.contains('\n'),
        !boundary.contains('\r'),
        !occurs_in(delimiter(boundary), content),
        content.len() == 0 || content.last() != 13,
    ensures
        read_of(
            delimiter(boundary) + seq![10u8, 10u8] + content + seq![10u8] + delimiter(boundary)
                + dashes() + seq![10u8],
            boundary,
        ) == Ok::<Seq<PartView>, (Seq<char>, int)>(seq![(seq![], content)]),
{
    let d = delimiter(boundary);
    lemma_delimiter_bytes(boundary);
    let dl = d.len() as int;
    let x = content.len() as int;
    let bytes = d + seq![10u8, 10u8] + content + seq![10u8] + d + dashes() + seq![10u8];
    let next = dl + 3 + x;
    // the opening delimiter
    assert(bytes.subrange(0, dl) =~= d);
    let first_after = bytes.subrange(dl, bytes.len() as int);
    assert(first_after[0] == 10);
    assert(after_padding(first_after) == first_after);
    assert(delimiter_here(bytes, d, 0));
    lemma_first_delimiter(bytes, d, 0, 0);
    // the closing delimiter
    assert(bytes.subrange(next, next + dl) =~= d);
    assert(bytes[next - 1] == 10);
    let closing_after = bytes.subrange(next + dl, bytes.len() as int);
    assert(closing_after =~= dashes() + seq![10u8]);
    assert(closing_after.subrange(0, 2) =~= dashes());
    assert(after_padding(closing_after) == closing_after);
    assert(delimiter_here(bytes, d, next));
    // nothing between is a delimiter
    let start = dl + 1;
    assert(past_line(bytes, dl) == start);
    assert forall|i: int| start <= i < next implies !delimiter_here(bytes, d, i) by {
        if i < dl + 2 {
            assert(bytes[i] == 10);
            lemma_not_hyphen(bytes, d, i);
        } else if i < dl + 2 + x {
            if i + dl <= dl + 2 + x {
                if delimiter_here(bytes, d, i) {
                    let o = i - dl - 2;
                    assert(content.subrange(o, o + dl) =~= bytes.subrange(i, i + dl));
                    assert(occurs_in(d, content));
                }
            } else {
                assert(bytes[dl + 2 + x] == 10);
                lemma_foreign_within(bytes, d, i, dl + 2 + x);
            }
        } else {
            assert(bytes[i] == 10);
            lemma_not_hyphen(bytes, d, i);
        }
    }
    lemma_first_delimiter(bytes, d, start, next);
    // the part between them
    let section = bytes.subrange(start, next);
    assert(section =~= seq![10u8] + content + seq![10u8]);
    assert(newline_after(section, 0) == 0);
    assert(blank_line(section, 0) == Some::<(int, int)>((0, 1)));
    let head = section.subrange(0, 0);
    assert(head =~= Seq::<u8>::empty());
    assert(vstd::utf8::encode_utf8(Seq::<char>::empty()) =~= Seq::<u8>::empty());
    vstd::utf8::encode_utf8_valid_utf8(Seq::<char>::empty());
    vstd::utf8::encode_utf8_decode_utf8(Seq::<char>::empty());
    assert(head_text(head) =~= Seq::<char>::empty());
    assert(lines_of(Seq::<char>::empty()) =~= Seq::<Seq<char>>::empty());
    assert(headers_of(head_text(head)) =~= Seq::<(Seq<char>, Seq<char>)>::empty());
    let body_part = section.subrange(1, section.len() as int);
    assert(body_part =~= content + seq![10u8]);
    if x > 0 {
        assert(body_part[body_part.len() - 2] == content.last());
    }
    assert(without_break(body_part) =~= content);
    assert(part_at(bytes, start, next) == Ok::<PartView, (Seq<char>, int)>(
        (seq![], content),
    ));
    // the parts after the closing delimiter: none
    assert(dashes().is_prefix_of(bytes.subrange(next + dl, bytes.len() as int)));
    assert(parts_after(bytes, boundary, next) == Ok::<Seq<PartView>, (Seq<char>, int)>(
        Seq::<PartView>::empty(),
    ));
    assert(!dashes().is_prefix_of(bytes.subrange(dl, bytes.len() as int))) by {
        if dashes().is_prefix_of(bytes.subrange(dl, bytes.len() as int)) {
            assert(bytes.subrange(dl, bytes.len() as int)[0] == dashes()[0]);
        }
    }
    lemma_parts_after_step(
        bytes,
        boundary,
        0,
        next,
        (seq![], content),
        Seq::<PartView>::empty(),
    );
    assert(seq![(seq![], content)] + Seq::<PartView>::empty() =~= seq![(seq![], content)]);
}

} // verus!

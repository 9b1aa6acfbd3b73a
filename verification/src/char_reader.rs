//! A reader over text one character at a time: what every lexer walks its
//! source with.
//!
//! Every position the reader gives is a byte offset on a character boundary,
//! so a lexer may slice the text at any of them. Lines and columns count
//! from 1; a column counts characters, not bytes. The reader offers Unicode
//! whitespace because that is the one test every lexer shares.

use crate::text::{
    after_chars, before_chars, is_white_space, is_whitespace, lemma_boundary_after,
    lemma_encode_concat, lemma_encode_len, utf8_width,
};
use vstd::prelude::*;
use vstd::std_specs::iter::IteratorSpec;
use vstd::string::StringSliceAdditionalSpecFns;
use vstd::utf8::{encode_utf8, is_char_boundary};

verus! {

broadcast use vstd::string::group_string_axioms, vstd::utf8::encode_utf8_decode_utf8;

/// How many line feeds `text` holds.
pub open spec fn newlines(text: Seq<char>) -> nat
    decreases text.len(),
{
    if text.len() == 0 {
        0
    } else {
        newlines(text.drop_last()) + if text.last() == '\n' { 1nat } else { 0nat }
    }
}

/// How many characters follow the last line feed of `text`, or all of them.
pub open spec fn line_length(text: Seq<char>) -> nat
    decreases text.len(),
{
    if text.len() == 0 {
        0
    } else if text.last() == '\n' {
        0
    } else {
        line_length(text.drop_last()) + 1
    }
}

/// The first position from which `text` opens with `pattern`, among the
/// positions of its characters.
pub open spec fn first_match(text: Seq<char>, pattern: Seq<char>) -> Option<nat>
    decreases text.len(),
{
    if text.len() == 0 {
        None
    } else if pattern.is_prefix_of(text) {
        Some(0)
    } else {
        match first_match(text.drop_first(), pattern) {
            Some(i) => Some(i + 1),
            None => None,
        }
    }
}

proof fn lemma_counts_bounded(text: Seq<char>)
    ensures
        newlines(text) <= text.len(),
        line_length(text) <= text.len(),
    decreases text.len(),
{
    if text.len() > 0 {
        lemma_counts_bounded(text.drop_last());
    }
}

/// A position in `text`, always on a character boundary.
pub struct CharReader<'a> {
    text: &'a str,
    at: usize,
    line: usize,
    column: usize,
    read: Ghost<nat>,
}

/// The character at `n` in `text`, if there is one.
fn nth_char(text: &str, n: usize) -> (found: Option<char>)
    ensures
        found == if n < text@.len() {
            Some(text@[n as int])
        } else {
            None::<char>
        },
{
    let mut chars = text.chars();
    let mut index: usize = 0;
    loop
        invariant
            index <= n,
            index <= text@.len(),
            chars.remaining() == text@.subrange(index as int, text@.len() as int),
        decreases text@.len() - index,
    {
        match chars.next() {
            None => {
                return None;
            },
            Some(c) => {
                if index == n {
                    return Some(c);
                }
                assert(text@.subrange(index as int, text@.len() as int).drop_first() =~= text@.subrange(
                    index + 1,
                    text@.len() as int,
                ));
                index += 1;
            },
        }
    }
}

/// Whether `text` opens with `prefix`.
fn opens_with(text: &str, prefix: &str) -> (opens: bool)
    ensures
        opens == prefix@.is_prefix_of(text@),
{
    let mut chars = text.chars();
    let mut wanted = prefix.chars();
    let ghost mut index: nat = 0;
    loop
        invariant
            index <= prefix@.len(),
            index <= text@.len(),
            chars.remaining() == text@.subrange(index as int, text@.len() as int),
            wanted.remaining() == prefix@.subrange(index as int, prefix@.len() as int),
            forall|j: int| 0 <= j < index ==> prefix@[j] == text@[j],
        decreases prefix@.len() - index,
    {
        let expected = wanted.next();
        match expected {
            None => {
                assert(prefix@ =~= text@.subrange(0, prefix@.len() as int));
                return true;
            },
            Some(expected) => {
                let found = chars.next();
                match found {
                    None => {
                        return false;
                    },
                    Some(found) => {
                        if found != expected {
                            return false;
                        }
                    },
                }
            },
        }
        assert(text@.subrange(index as int, text@.len() as int).drop_first() =~= text@.subrange(
            index + 1 as int,
            text@.len() as int,
        ));
        assert(prefix@.subrange(index as int, prefix@.len() as int).drop_first()
            =~= prefix@.subrange(index + 1 as int, prefix@.len() as int));
        proof {
            index = index + 1;
        }
    }
}

/// How many characters `text` opens with for which `keep` holds, and how
/// many bytes they take.
fn count_while(text: &str, keep: &impl Fn(char) -> bool) -> (counted: (usize, Ghost<nat>))
    requires
        forall|c: char| call_requires(*keep, (c,)),
        text.spec_bytes().len() <= usize::MAX,
    ensures
        counted.1@ <= text@.len(),
        counted.0 == encode_utf8(text@.subrange(0, counted.1@ as int)).len(),
        forall|i: int| 0 <= i < counted.1@ ==> call_ensures(*keep, (text@[i],), true),
        counted.1@ < text@.len() ==> call_ensures(*keep, (text@[counted.1@ as int],), false),
{
    let mut chars = text.chars();
    let mut bytes: usize = 0;
    let ghost mut index: nat = 0;
    proof {
        assert(text@.subrange(0, 0) =~= Seq::<char>::empty());
        assert(encode_utf8(Seq::<char>::empty()) =~= Seq::<u8>::empty());
    }
    loop
        invariant
            index <= text@.len(),
            forall|c: char| call_requires(*keep, (c,)),
            chars.remaining() == text@.subrange(index as int, text@.len() as int),
            bytes == encode_utf8(text@.subrange(0, index as int)).len(),
            bytes <= encode_utf8(text@).len(),
            encode_utf8(text@).len() == text.spec_bytes().len(),
            text.spec_bytes().len() <= usize::MAX,
            forall|i: int| 0 <= i < index ==> call_ensures(*keep, (text@[i],), true),
        decreases text@.len() - index,
    {
        match chars.next() {
            None => {
                return (bytes, Ghost(index));
            },
            Some(c) => {
                if !keep(c) {
                    return (bytes, Ghost(index));
                }
                proof {
                    let head = text@.subrange(0, index as int);
                    let longer = text@.subrange(0, index + 1 as int);
                    let tail = text@.subrange(index + 1 as int, text@.len() as int);
                    assert(longer =~= head + seq![c]);
                    lemma_encode_concat(head, seq![c]);
                    assert(longer + tail =~= text@);
                    lemma_encode_concat(longer, tail);
                    crate::text::lemma_encode_single(c);
                    assert(text@.subrange(index as int, text@.len() as int).drop_first()
                        =~= tail);
                }
                bytes = bytes + utf8_width(c);
                proof {
                    index = index + 1;
                }
            },
        }
    }
}

impl<'a> Clone for CharReader<'a> {
    fn clone(&self) -> (copy: Self)
        ensures
            copy == *self,
    {
        proof {
            use_type_invariant(self);
        }
        CharReader {
            text: self.text,
            at: self.at,
            line: self.line,
            column: self.column,
            read: Ghost(self.read@),
        }
    }
}

impl<'a> CharReader<'a> {
    #[verifier::type_invariant]
    spec fn consistent(self) -> bool {
        &&& self.read@ <= self.text@.len()
        &&& self.at == encode_utf8(self.text@.subrange(0, self.read@ as int)).len()
        &&& self.line == 1 + newlines(self.text@.subrange(0, self.read@ as int))
        &&& self.column == 1 + line_length(self.text@.subrange(0, self.read@ as int))
        &&& encode_utf8(self.text@).len() < usize::MAX
    }

    /// The whole text being read.
    pub closed spec fn chars(&self) -> Seq<char> {
        self.text@
    }

    /// How many characters have been read.
    pub closed spec fn count(&self) -> nat {
        self.read@
    }

    /// The characters read so far.
    pub open spec fn read_chars(&self) -> Seq<char> {
        self.chars().subrange(0, self.count() as int)
    }

    /// The characters not yet read.
    pub open spec fn rest_chars(&self) -> Seq<char> {
        self.chars().subrange(self.count() as int, self.chars().len() as int)
    }

    /// Whether `other` reads the same text, `taken` characters further on.
    pub open spec fn advanced(&self, other: &Self, taken: nat) -> bool {
        &&& other.chars() == self.chars()
        &&& other.count() == self.count() + taken
    }

    /// At the first character of `text`, line 1, column 1.
    pub fn new(text: &'a str) -> (reader: Self)
        requires
            text.spec_bytes().len() < usize::MAX,
        ensures
            reader.chars() == text@,
            reader.count() == 0,
    {
        proof {
            assert(text@.subrange(0, 0) =~= Seq::<char>::empty());
            assert(encode_utf8(Seq::<char>::empty()) =~= Seq::<u8>::empty());
        }
        CharReader { text, at: 0, line: 1, column: 1, read: Ghost(0) }
    }

    /// The whole text being read.
    pub fn text(&self) -> (text: &'a str)
        ensures
            text@ == self.chars(),
    {
        self.text
    }

    /// The byte offset of the next character.
    pub fn offset(&self) -> (offset: usize)
        ensures
            offset == encode_utf8(self.read_chars()).len(),
            is_char_boundary(encode_utf8(self.chars()), offset as int),
    {
        proof {
            use_type_invariant(self);
            law_offset_on_boundary(self);
        }
        self.at
    }

    /// The line of the next character, from 1.
    pub fn line(&self) -> (line: usize)
        ensures
            line == 1 + newlines(self.read_chars()),
    {
        proof {
            use_type_invariant(self);
        }
        self.line
    }

    /// The column of the next character in characters, from 1.
    pub fn column(&self) -> (column: usize)
        ensures
            column == 1 + line_length(self.read_chars()),
    {
        proof {
            use_type_invariant(self);
        }
        self.column
    }

    /// Everything not yet read.
    pub fn rest(&self) -> (rest: &'a str)
        ensures
            self.count() <= self.chars().len(),
            rest@ == self.rest_chars(),
    {
        proof {
            use_type_invariant(self);
        }
        after_chars(self.text, self.at, Ghost(self.read@))
    }

    /// What was read since `start`, an offset this reader gave; empty for an
    /// offset it did not.
    pub fn since(&self, start: usize) -> (read: &'a str)
        ensures
            if start <= encode_utf8(self.read_chars()).len() && is_char_boundary(
                encode_utf8(self.chars()),
                start as int,
            ) {
                read.spec_bytes() == encode_utf8(self.chars()).subrange(
                    start as int,
                    encode_utf8(self.read_chars()).len() as int,
                )
            } else {
                read@ == Seq::<char>::empty()
            },
    {
        proof {
            use_type_invariant(self);
        }
        if start <= self.at && self.text.is_char_boundary(start) {
            let head = before_chars(self.text, self.at, Ghost(self.read@));
            proof {
                let bytes = encode_utf8(self.text@);
                let first = head.spec_bytes();
                let tail = self.text@.subrange(self.read@ as int, self.text@.len() as int);
                assert(head@ + tail =~= self.text@);
                lemma_encode_concat(head@, tail);
                vstd::utf8::encode_utf8_valid_utf8(head@);
                vstd::utf8::encode_utf8_valid_utf8(self.text@);
                if start < self.at {
                    assert(first[start as int] == bytes[start as int]);
                    vstd::utf8::is_char_boundary_iff_not_is_continuation_byte(bytes, start as int);
                    vstd::utf8::is_char_boundary_iff_not_is_continuation_byte(first, start as int);
                } else {
                    vstd::utf8::is_char_boundary_start_end_of_seq(first);
                }
            }
            let (_, read) = head.split_at(start);
            proof {
                let bytes = encode_utf8(self.text@);
                let tail = self.text@.subrange(self.read@ as int, self.text@.len() as int);
                assert(read.spec_bytes() =~= bytes.subrange(start as int, self.at as int));
            }
            read
        } else {
            proof {
                reveal_strlit("");
            }
            ""
        }
    }

    /// Whether everything has been read.
    pub fn is_done(&self) -> (done: bool)
        ensures
            done == (self.count() == self.chars().len()),
    {
        proof {
            use_type_invariant(self);
            let head = self.text@.subrange(0, self.read@ as int);
            let tail = self.text@.subrange(self.read@ as int, self.text@.len() as int);
            assert(head + tail =~= self.text@);
            lemma_encode_concat(head, tail);
            lemma_encode_len(tail);
        }
        self.at >= self.text.len()
    }

    /// The next character, not taken.
    pub fn peek(&self) -> (next: Option<char>)
        ensures
            self.count() <= self.chars().len(),
            next == if self.count() < self.chars().len() {
                Some(self.chars()[self.count() as int])
            } else {
                None::<char>
            },
    {
        proof {
            use_type_invariant(self);
        }
        nth_char(self.rest(), 0)
    }

    /// The character `ahead` past the next, not taken: `peek_nth(0)` is
    /// `peek()`.
    pub fn peek_nth(&self, ahead: usize) -> (found: Option<char>)
        ensures
            found == if self.count() + ahead < self.chars().len() {
                Some(self.chars()[self.count() + ahead])
            } else {
                None::<char>
            },
    {
        proof {
            use_type_invariant(self);
        }
        nth_char(self.rest(), ahead)
    }

    /// Whether the text not yet read opens with `prefix`.
    pub fn starts_with(&self, prefix: &str) -> (opens: bool)
        ensures
            opens == prefix@.is_prefix_of(self.rest_chars()),
    {
        opens_with(self.rest(), prefix)
    }

    /// The characters from here while `keep` holds, not taken.
    pub fn peek_while(&self, keep: impl Fn(char) -> bool) -> (kept: &'a str)
        requires
            forall|c: char| call_requires(keep, (c,)),
        ensures
            kept@ == self.rest_chars().subrange(0, kept@.len() as int),
            kept@.len() <= self.rest_chars().len(),
            forall|i: int| 0 <= i < kept@.len() ==> call_ensures(keep, (self.rest_chars()[i],), true),
            kept@.len() < self.rest_chars().len() ==> call_ensures(
                keep,
                (self.rest_chars()[kept@.len() as int],),
                false,
            ),
    {
        proof {
            use_type_invariant(self);
            let head = self.text@.subrange(0, self.read@ as int);
            let tail = self.text@.subrange(self.read@ as int, self.text@.len() as int);
            assert(head + tail =~= self.text@);
            lemma_encode_concat(head, tail);
        }
        let rest = self.rest();
        let (bytes, count) = count_while(rest, &keep);
        before_chars(rest, bytes, count)
    }

    /// The next character, taken; `None` at the end, where the reader stays.
    pub fn bump(&mut self) -> (next: Option<char>)
        ensures
            final(self).count() <= final(self).chars().len(),
            if old(self).count() < old(self).chars().len() {
                &&& next == Some(old(self).chars()[old(self).count() as int])
                &&& old(self).advanced(&*final(self), 1)
            } else {
                &&& next == None::<char>
                &&& *final(self) == *old(self)
            },
    {
        proof {
            use_type_invariant(&*self);
        }
        let character = match self.peek() {
            Some(character) => character,
            None => return None,
        };
        proof {
            let head = self.text@.subrange(0, self.read@ as int);
            let longer = self.text@.subrange(0, self.read@ + 1 as int);
            let tail = self.text@.subrange(self.read@ + 1 as int, self.text@.len() as int);
            assert(longer =~= head + seq![character]);
            lemma_encode_concat(head, seq![character]);
            assert(longer + tail =~= self.text@);
            lemma_encode_concat(longer, tail);
            crate::text::lemma_encode_single(character);
            lemma_counts_bounded(head);
            lemma_encode_len(longer);
            assert(longer.drop_last() =~= head);
        }
        let width = utf8_width(character);
        let (line, column) = if character == '\n' {
            (self.line + 1, 1)
        } else {
            (self.line, self.column + 1)
        };
        *self = CharReader {
            text: self.text,
            at: self.at + width,
            line,
            column,
            read: Ghost(self.read@ + 1),
        };
        Some(character)
    }

    /// Take `expected` if it is next.
    pub fn eat(&mut self, expected: char) -> (found: bool)
        ensures
            old(self).count() <= old(self).chars().len(),
            found == (old(self).count() < old(self).chars().len() && old(self).chars()[old(
                self,
            ).count() as int] == expected),
            if found {
                old(self).advanced(&*final(self), 1)
            } else {
                *final(self) == *old(self)
            },
    {
        let found = self.peek() == Some(expected);
        if found {
            self.bump();
        }
        found
    }

    /// Take `prefix` if the text not yet read opens with it.
    pub fn eat_str(&mut self, prefix: &str) -> (found: bool)
        ensures
            found == prefix@.is_prefix_of(old(self).rest_chars()),
            if found {
                old(self).advanced(&*final(self), prefix@.len())
            } else {
                *final(self) == *old(self)
            },
    {
        let found = self.starts_with(prefix);
        if found {
            let mut chars = prefix.chars();
            let ghost start = *self;
            let ghost mut taken: nat = 0;
            loop
                invariant
                    taken <= prefix@.len(),
                    start == *old(self),
                    prefix@.is_prefix_of(start.rest_chars()),
                    chars.remaining() == prefix@.subrange(taken as int, prefix@.len() as int),
                    start.advanced(&*self, taken),
                ensures
                    start.advanced(&*self, prefix@.len()),
                decreases prefix@.len() - taken,
            {
                match chars.next() {
                    None => {
                        assert(taken == prefix@.len());
                        break;
                    },
                    Some(_) => {
                        proof {
                            use_type_invariant(&*self);
                            assert(start.rest_chars()[taken as int] == self.chars()[self.count() as int]);
                        }
                        self.bump();
                        proof {
                            assert(prefix@.subrange(taken as int, prefix@.len() as int).drop_first()
                                =~= prefix@.subrange(taken + 1 as int, prefix@.len() as int));
                            taken = taken + 1;
                        }
                    },
                }
            }
        }
        found
    }

    /// The characters from here while `keep` holds, taken.
    pub fn take_while(&mut self, keep: impl Fn(char) -> bool) -> (kept: &'a str)
        requires
            forall|c: char| call_requires(keep, (c,)),
        ensures
            kept@ == old(self).rest_chars().subrange(0, kept@.len() as int),
            kept@.len() <= old(self).rest_chars().len(),
            forall|i: int|
                0 <= i < kept@.len() ==> call_ensures(keep, (old(self).rest_chars()[i],), true),
            kept@.len() < old(self).rest_chars().len() ==> call_ensures(
                keep,
                (old(self).rest_chars()[kept@.len() as int],),
                false,
            ),
            old(self).advanced(&*final(self), kept@.len()),
    {
        let kept = self.peek_while(keep);
        self.eat_str(kept);
        kept
    }

    /// Past every Unicode whitespace character from here; whether there was
    /// any.
    pub fn skip_whitespace(&mut self) -> (skipped: bool)
        ensures
            ({
                let taken = (final(self).count() - old(self).count()) as nat;
                let rest = old(self).rest_chars();
                &&& old(self).advanced(&*final(self), taken)
                &&& forall|i: int| 0 <= i < taken ==> is_white_space(#[trigger] rest[i])
                &&& taken < rest.len() ==> !is_white_space(rest[taken as int])
                &&& skipped == (taken > 0)
            }),
    {
        let skipped = self.take_while(is_whitespace);
        !skipped.is_empty()
    }

    /// Through the next `end`, taken with it; `false` when the text ends
    /// first, and everything is read.
    pub fn skip_past(&mut self, end: &str) -> (found: bool)
        ensures
            final(self).chars() == old(self).chars(),
            match first_match(old(self).rest_chars(), end@) {
                Some(i) => found && final(self).count() == old(self).count() + i + end@.len(),
                None => !found && final(self).count() == old(self).chars().len(),
            },
    {
        let ghost start = *self;
        let ghost rest = start.rest_chars();
        proof {
            use_type_invariant(&*self);
            assert(rest.subrange(0, rest.len() as int) =~= rest);
        }
        while !self.is_done()
            invariant
                start == *old(self),
                rest == start.rest_chars(),
                start.chars() == self.chars(),
                start.count() <= self.count() <= self.chars().len(),
                self.rest_chars() == rest.subrange(
                    self.count() - start.count(),
                    rest.len() as int,
                ),
                first_match(rest, end@) == match first_match(self.rest_chars(), end@) {
                    Some(i) => Some((i + self.count() - start.count()) as nat),
                    None => None::<nat>,
                },
            decreases self.chars().len() - self.count(),
        {
            if self.eat_str(end) {
                return true;
            }
            proof {
                use_type_invariant(&*self);
            }
            let ghost before = self.rest_chars();
            self.bump();
            proof {
                use_type_invariant(&*self);
                assert(before.drop_first() =~= self.rest_chars());
                assert(self.rest_chars() =~= rest.subrange(
                    self.count() - start.count(),
                    rest.len() as int,
                ));
            }
        }
        proof {
            assert(self.rest_chars() =~= Seq::<char>::empty());
        }
        false
    }
}

/// Every offset a reader gives is a character boundary of its text: the
/// text may be sliced there.
pub proof fn law_offset_on_boundary(reader: &CharReader)
    requires
        reader.count() <= reader.chars().len(),
    ensures
        is_char_boundary(
            encode_utf8(reader.chars()),
            encode_utf8(reader.read_chars()).len() as int,
        ),
{
    let head = reader.read_chars();
    let tail = reader.rest_chars();
    assert(head + tail =~= reader.chars());
    lemma_boundary_after(head, tail);
}

} // verus!

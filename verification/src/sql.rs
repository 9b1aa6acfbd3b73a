//! SQL's delimited text: a string literal or a quoted identifier, written
//! between two delimiters with the closing one doubled inside, and read
//! back with the doubling undone (ISO/IEC 9075, 5.3 and 5.4).
//!
//! Which delimiters a server uses is its dialect's to say: `'...'` for a
//! literal everywhere, `"..."` for an identifier in ISO and `PostgreSQL`,
//! `[...]` in T-SQL, backticks in `MySQL`.

use crate::char_reader::CharReader;
use crate::text::push_char;
use crate::CodecError;
use vstd::prelude::*;
use vstd::std_specs::iter::IteratorSpec;
use vstd::string::StringExecFns;
use vstd::string::StringSliceAdditionalSpecFns;

verus! {

broadcast use vstd::string::group_string_axioms;

/// The two characters a run of SQL text is written between.
#[derive(Clone, Copy, Debug, PartialEq, Eq, Structural)]
pub struct Delimiter {
    pub open: char,
    pub close: char,
}

/// `text` with every `close` in it doubled.
pub open spec fn doubled(text: Seq<char>, close: char) -> Seq<char>
    decreases text.len(),
{
    if text.len() == 0 {
        seq![]
    } else {
        let c = text.last();
        doubled(text.drop_last(), close) + if c == close { seq![c, c] } else { seq![c] }
    }
}

/// Why a run is not there to read.
#[derive(Clone, Copy, PartialEq, Eq, Structural)]
pub enum SqlFault {
    /// The text does not open with the opening delimiter.
    NotOpened,
    /// The text ends before the run closes.
    NotTerminated,
}

/// What a refusal for `fault` says of a run that `open` would open.
pub open spec fn refusal_message(open: char, fault: SqlFault) -> Seq<char> {
    match fault {
        SqlFault::NotOpened => "no "@ + seq![open] + " opens the text"@,
        SqlFault::NotTerminated => "the text opened with "@ + seq![open] + " is not terminated"@,
    }
}

/// The text of a run after its opening delimiter, the doubling undone, and
/// how many characters it takes with its closing delimiter.
pub open spec fn run_body(rest: Seq<char>, close: char) -> Result<(Seq<char>, nat), SqlFault>
    decreases rest.len(),
{
    if rest.len() == 0 {
        Err(SqlFault::NotTerminated)
    } else if rest[0] == close {
        if rest.len() >= 2 && rest[1] == close {
            match run_body(rest.subrange(2, rest.len() as int), close) {
                Ok((text, length)) => Ok((seq![close] + text, length + 2)),
                Err(fault) => Err(fault),
            }
        } else {
            Ok((seq![], 1))
        }
    } else {
        match run_body(rest.drop_first(), close) {
            Ok((text, length)) => Ok((seq![rest[0]] + text, length + 1)),
            Err(fault) => Err(fault),
        }
    }
}

impl Delimiter {
    /// `text` between the delimiters, every closing delimiter in it doubled.
    pub open spec fn quoted(self, text: Seq<char>) -> Seq<char> {
        seq![self.open] + doubled(text, self.close) + seq![self.close]
    }

    /// The text of the run `text` opens with, and how many characters the
    /// run takes with its delimiters.
    pub open spec fn run(self, text: Seq<char>) -> Result<(Seq<char>, nat), SqlFault> {
        if text.len() == 0 || text[0] != self.open {
            Err(SqlFault::NotOpened)
        } else {
            match run_body(text.drop_first(), self.close) {
                Ok((value, length)) => Ok((value, length + 1)),
                Err(fault) => Err(fault),
            }
        }
    }

    /// A string literal: `'it''s'`.
    pub fn string() -> (delimiter: Self)
        ensures
            delimiter == Self::new_spec('\'', '\''),
    {
        Self::new('\'', '\'')
    }

    /// An ISO identifier, as `PostgreSQL` and Oracle write one: `"a ""b"""`.
    pub fn identifier() -> (delimiter: Self)
        ensures
            delimiter == Self::new_spec('"', '"'),
    {
        Self::new('"', '"')
    }

    /// A T-SQL identifier: `[in]]box]`.
    pub fn bracket() -> (delimiter: Self)
        ensures
            delimiter == Self::new_spec('[', ']'),
    {
        Self::new('[', ']')
    }

    /// A `MySQL` identifier, in backticks with a backtick in it doubled.
    pub fn backtick() -> (delimiter: Self)
        ensures
            delimiter == Self::new_spec('`', '`'),
    {
        Self::new('`', '`')
    }

    /// Text written between `open` and `close`.
    pub open spec fn new_spec(open: char, close: char) -> Self {
        Delimiter { open, close }
    }

    /// Text written between `open` and `close`.
    pub fn new(open: char, close: char) -> (delimiter: Self)
        ensures
            delimiter == Self::new_spec(open, close),
    {
        Delimiter { open, close }
    }

    /// `text` between the delimiters, every closing delimiter in it doubled.
    pub fn quote(self, text: &str) -> (quoted: String)
        ensures
            quoted@ == self.quoted(text@),
    {
        let mut out = String::new();
        push_char(&mut out, self.open);
        let mut chars = text.chars();
        let ghost mut index: nat = 0;
        loop
            invariant
                index <= text@.len(),
                chars.remaining() == text@.subrange(index as int, text@.len() as int),
                out@ == seq![self.open] + doubled(text@.subrange(0, index as int), self.close),
            ensures
                out@ == seq![self.open] + doubled(text@, self.close),
            decreases text@.len() - index,
        {
            let character = match chars.next() {
                Some(character) => character,
                None => {
                    assert(text@.subrange(0, index as int) =~= text@);
                    break;
                },
            };
            let ghost before = out@;
            push_char(&mut out, character);
            if character == self.close {
                push_char(&mut out, character);
            }
            proof {
                let head = text@.subrange(0, index + 1 as int);
                assert(head.drop_last() =~= text@.subrange(0, index as int));
                assert(out@ =~= seq![self.open] + doubled(head, self.close));
                assert(text@.subrange(index as int, text@.len() as int).drop_first()
                    =~= text@.subrange(index + 1 as int, text@.len() as int));
                index = index + 1;
            }
        }
        push_char(&mut out, self.close);
        out
    }

    /// The run `reader` stands at, read past its closing delimiter, the
    /// doubling undone.
    ///
    /// # Errors
    /// The text does not open with the opening delimiter, or ends before
    /// the run closes.
    pub fn read(self, reader: &mut CharReader<'_>) -> (result: Result<String, CodecError>)
        ensures
            final(reader).chars() == old(reader).chars(),
            match self.run(old(reader).rest_chars()) {
                Ok((value, length)) => {
                    &&& result matches Ok(text) && text@ == value
                    &&& old(reader).advanced(&*final(reader), length)
                },
                Err(fault) => {
                    &&& result is Err
                    &&& result->Err_0.message@ == refusal_message(self.open, fault)
                    &&& fault == SqlFault::NotOpened ==> *final(reader) == *old(reader)
                    &&& fault == SqlFault::NotTerminated ==> final(reader).count()
                        == final(reader).chars().len()
                },
            },
    {
        let ghost start = reader.rest_chars();
        if !reader.eat(self.open) {
            let mut message = String::from_str("no ");
            push_char(&mut message, self.open);
            message.append(" opens the text");
            assert(message@ =~= refusal_message(self.open, SqlFault::NotOpened));
            return Err(CodecError::new(message));
        }
        let ghost first = *reader;
        let mut out = String::new();
        proof {
            assert(reader.rest_chars() =~= start.drop_first());
        }
        loop
            invariant
                reader.chars() == old(reader).chars(),
                old(reader).count() < reader.count() <= reader.chars().len(),
                start == old(reader).rest_chars(),
                start.len() > 0 && start[0] == self.open,
                reader.rest_chars() == start.subrange(
                    reader.count() - old(reader).count(),
                    start.len() as int,
                ),
                run_body(start.drop_first(), self.close) == match run_body(
                    reader.rest_chars(),
                    self.close,
                ) {
                    Ok((text, length)) => Ok(
                        (out@ + text, (length + reader.count() - old(reader).count() - 1) as nat),
                    ),
                    Err(fault) => Err::<(Seq<char>, nat), SqlFault>(fault),
                },
            decreases reader.chars().len() - reader.count(),
        {
            let ghost rest = reader.rest_chars();
            let ghost before = out@;
            match reader.bump() {
                Some(character) => {
                    if character == self.close {
                        let again = reader.eat(self.close);
                        if !again {
                            proof {
                                assert(rest.len() < 2 || rest[1] != self.close);
                            }
                            return Ok(out);
                        }
                        push_char(&mut out, character);
                        proof {
                            assert(reader.rest_chars() =~= rest.subrange(2, rest.len() as int));
                            assert(reader.rest_chars() =~= start.subrange(
                                reader.count() - old(reader).count(),
                                start.len() as int,
                            ));
                            match run_body(reader.rest_chars(), self.close) {
                                Ok((t, l)) => {
                                    assert(before + (seq![self.close] + t) =~= out@ + t);
                                },
                                Err(_) => {},
                            }
                        }
                    } else {
                        push_char(&mut out, character);
                        proof {
                            assert(reader.rest_chars() =~= rest.drop_first());
                            assert(reader.rest_chars() =~= start.subrange(
                                reader.count() - old(reader).count(),
                                start.len() as int,
                            ));
                            match run_body(reader.rest_chars(), self.close) {
                                Ok((t, l)) => {
                                    assert(before + (seq![character] + t) =~= out@ + t);
                                },
                                Err(_) => {},
                            }
                        }
                    }
                },
                None => {
                    let mut message = String::from_str("the text opened with ");
                    push_char(&mut message, self.open);
                    message.append(" is not terminated");
                    assert(message@ =~= refusal_message(self.open, SqlFault::NotTerminated));
                    return Err(CodecError::new(message));
                },
            }
        }
    }

    /// The run `text` opens with, and what follows it.
    ///
    /// # Errors
    /// As [`Delimiter::read`].
    pub fn unquote_prefix(self, text: &str) -> (result: Result<(String, &str), CodecError>)
        requires
            text.spec_bytes().len() < usize::MAX,
        ensures
            match self.run(text@) {
                Ok((value, length)) => {
                    &&& result matches Ok((run, after)) && run@ == value && after@
                        == text@.subrange(length as int, text@.len() as int)
                },
                Err(fault) => result matches Err(error) && error.message@ == refusal_message(
                    self.open,
                    fault,
                ),
            },
    {
        let mut reader = CharReader::new(text);
        proof {
            assert(reader.rest_chars() =~= text@);
        }
        let run = match self.read(&mut reader) {
            Ok(run) => run,
            Err(error) => return Err(error),
        };
        Ok((run, reader.rest()))
    }
}

proof fn lemma_doubled_concat(x: Seq<char>, y: Seq<char>, close: char)
    ensures
        doubled(x + y, close) == doubled(x, close) + doubled(y, close),
    decreases y.len(),
{
    if y.len() == 0 {
        assert(x + y =~= x);
        assert(doubled(x, close) + doubled(y, close) =~= doubled(x, close));
    } else {
        assert((x + y).drop_last() =~= x + y.drop_last());
        lemma_doubled_concat(x, y.drop_last(), close);
        assert(doubled(x + y, close) =~= doubled(x, close) + doubled(y, close));
    }
}

proof fn lemma_body_of_doubled(text: Seq<char>, close: char, rest: Seq<char>)
    requires
        !(rest.len() > 0 && rest[0] == close),
    ensures
        run_body(doubled(text, close) + seq![close] + rest, close) == Ok::<
            (Seq<char>, nat),
            SqlFault,
        >((text, doubled(text, close).len() + 1)),
    decreases text.len(),
{
    let all = doubled(text, close) + seq![close] + rest;
    if text.len() == 0 {
        assert(doubled(text, close) =~= Seq::<char>::empty());
        assert(all =~= seq![close] + rest);
        assert(text =~= Seq::<char>::empty());
    } else {
        let c = text[0];
        let tail = text.drop_first();
        assert(seq![c] + tail =~= text);
        lemma_doubled_concat(seq![c], tail, close);
        assert(seq![c].drop_last() =~= Seq::<char>::empty());
        assert(doubled(Seq::<char>::empty(), close) =~= Seq::<char>::empty());
        let head = if c == close { seq![c, c] } else { seq![c] };
        assert(doubled(seq![c], close) =~= head);
        lemma_body_of_doubled(tail, close, rest);
        let after = doubled(tail, close) + seq![close] + rest;
        assert(all =~= head + after);
        if c == close {
            assert(all.subrange(2, all.len() as int) =~= after);
        } else {
            assert(all.drop_first() =~= after);
        }
        assert(doubled(text, close).len() == head.len() + doubled(tail, close).len());
    }
}

/// Reading undoes quoting: the run `quote` writes for `text` reads back as
/// exactly `text`, ending where the quoted run ends, whatever follows it
/// unless that opens with the closing delimiter, which would read as a
/// doubled one.
pub proof fn law_run_inverts_quote(delimiter: Delimiter, text: Seq<char>, rest: Seq<char>)
    requires
        !(rest.len() > 0 && rest[0] == delimiter.close),
    ensures
        delimiter.run(delimiter.quoted(text) + rest) == Ok::<(Seq<char>, nat), SqlFault>(
            (text, delimiter.quoted(text).len()),
        ),
{
    lemma_body_of_doubled(text, delimiter.close, rest);
    let all = delimiter.quoted(text) + rest;
    assert(all.drop_first() =~= doubled(text, delimiter.close) + seq![delimiter.close] + rest);
}

/// What a run's body takes of the text is its text doubled, then the
/// closing delimiter.
proof fn lemma_body_is_doubled(rest: Seq<char>, close: char)
    requires
        run_body(rest, close) is Ok,
    ensures
        ({
            let (text, length) = run_body(rest, close)->Ok_0;
            &&& length <= rest.len()
            &&& rest.subrange(0, length as int) == doubled(text, close) + seq![close]
        }),
    decreases rest.len(),
{
    assert(doubled(Seq::<char>::empty(), close) =~= Seq::<char>::empty());
    let c = rest[0];
    assert(seq![c].drop_last() =~= Seq::<char>::empty());
    if c == close {
        if rest.len() >= 2 && rest[1] == close {
            let after = rest.subrange(2, rest.len() as int);
            lemma_body_is_doubled(after, close);
            let (inner, length) = run_body(after, close)->Ok_0;
            lemma_doubled_concat(seq![close], inner, close);
            assert(rest.subrange(0, length + 2int) =~= seq![close, close] + after.subrange(
                0,
                length as int,
            ));
            assert(doubled(seq![close] + inner, close) + seq![close] =~= seq![close, close]
                + (doubled(inner, close) + seq![close]));
        } else {
            assert(rest.subrange(0, 1) =~= seq![close]);
        }
    } else {
        let after = rest.drop_first();
        lemma_body_is_doubled(after, close);
        let (inner, length) = run_body(after, close)->Ok_0;
        lemma_doubled_concat(seq![c], inner, close);
        assert(rest.subrange(0, length + 1int) =~= seq![c] + after.subrange(0, length as int));
        assert(doubled(seq![c] + inner, close) + seq![close] =~= seq![c] + (doubled(inner, close)
            + seq![close]));
    }
}

/// What a run takes of the text is the quote of what it reads: reading
/// consumes exactly `quote` of the text it gives back.
pub proof fn law_run_is_quoted(delimiter: Delimiter, text: Seq<char>)
    requires
        delimiter.run(text) is Ok,
    ensures
        ({
            let (value, length) = delimiter.run(text)->Ok_0;
            &&& length <= text.len()
            &&& text.subrange(0, length as int) == delimiter.quoted(value)
        }),
{
    let body = text.drop_first();
    lemma_body_is_doubled(body, delimiter.close);
    let (value, length) = run_body(body, delimiter.close)->Ok_0;
    assert(text.subrange(0, length + 1int) =~= seq![delimiter.open] + body.subrange(
        0,
        length as int,
    ));
    assert(delimiter.quoted(value) =~= seq![delimiter.open] + (doubled(value, delimiter.close)
        + seq![delimiter.close]));
}

} // verus!

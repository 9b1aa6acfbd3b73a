//! Reading a binary message's fields in order: the one byte cursor.
//!
//! Every binary protocol reads the same way: take the next so many bytes,
//! never past the end, and know where it has got to. What differs between
//! protocols is what a field means, and that stays with each protocol,
//! written over this cursor in its own words.

use crate::text::{decimal, decimal_chars, hex_digit, lower_hex_digit, push_char};
use crate::varint;
use crate::CodecError;
use vstd::prelude::*;
use vstd::string::StringExecFns;

verus! {

/// Where reading has got to in a message.
pub struct Cursor<'a> {
    bytes: &'a [u8],
    at: usize,
}

/// The number `bytes` spell, most significant byte first.
pub open spec fn be_value(bytes: Seq<u8>) -> nat
    decreases bytes.len(),
{
    if bytes.len() == 0 {
        0
    } else {
        be_value(bytes.drop_last()) * 256 + bytes.last() as nat
    }
}

/// The number `bytes` spell, least significant byte first.
pub open spec fn le_value(bytes: Seq<u8>) -> nat {
    be_value(bytes.reverse())
}

/// `value` read as a two's-complement number of `bits` bits.
pub open spec fn signed(value: int, bits: nat) -> int {
    if value >= vstd::arithmetic::power2::pow2((bits - 1) as nat) {
        value - vstd::arithmetic::power2::pow2(bits)
    } else {
        value
    }
}

/// The message of a refused read of `count` bytes with `remain` left.
pub open spec fn past_end_message(count: nat, remain: nat) -> Seq<char> {
    "a field of "@ + decimal_chars(count) + " bytes runs past the end, "@ + decimal_chars(remain)
        + " remain"@
}

/// The message of a field that no `delimiter` ends.
pub open spec fn unended_message(delimiter: u8) -> Seq<char> {
    "a field that no 0x"@ + seq![
        lower_hex_digit((delimiter / 16) as int),
        lower_hex_digit((delimiter % 16) as int),
    ] + " ends"@
}

/// The index of the first `delimiter` in `bytes`.
pub open spec fn first_index(bytes: Seq<u8>, delimiter: u8) -> Option<nat>
    decreases bytes.len(),
{
    if bytes.len() == 0 {
        None
    } else if bytes[0] == delimiter {
        Some(0)
    } else {
        match first_index(bytes.drop_first(), delimiter) {
            Some(i) => Some(i + 1),
            None => None,
        }
    }
}

impl<'a> Clone for Cursor<'a> {
    fn clone(&self) -> (copy: Self)
        ensures
            copy == *self,
    {
        proof {
            use_type_invariant(self);
        }
        Cursor { bytes: self.bytes, at: self.at }
    }
}

impl<'a> Cursor<'a> {
    #[verifier::type_invariant]
    spec fn inside(self) -> bool {
        self.at <= self.bytes@.len()
    }

    /// The whole message.
    pub closed spec fn data(&self) -> Seq<u8> {
        self.bytes@
    }

    /// How many bytes have been read.
    pub closed spec fn pos(&self) -> nat {
        self.at as nat
    }

    /// What remains to be read.
    pub open spec fn rest(&self) -> Seq<u8> {
        self.data().subrange(self.pos() as int, self.data().len() as int)
    }

    /// A cursor at the start of `bytes`.
    pub fn new(bytes: &'a [u8]) -> (cursor: Self)
        ensures
            cursor.data() == bytes@,
            cursor.pos() == 0,
    {
        Cursor { bytes, at: 0 }
    }

    /// How many bytes have been read.
    pub fn position(&self) -> (at: usize)
        ensures
            at == self.pos(),
            at <= self.data().len(),
    {
        proof {
            use_type_invariant(self);
        }
        self.at
    }

    /// True when nothing remains.
    pub fn is_empty(&self) -> (empty: bool)
        ensures
            empty == (self.pos() >= self.data().len()),
    {
        self.at >= self.bytes.len()
    }

    /// What remains, not taken.
    pub fn remaining(&self) -> (rest: &'a [u8])
        ensures
            rest@ == self.rest(),
    {
        proof {
            use_type_invariant(self);
        }
        vstd::slice::slice_subrange(self.bytes, self.at, self.bytes.len())
    }

    /// The next byte, not taken.
    pub fn peek(&self) -> (next: Option<u8>)
        ensures
            next == if self.pos() < self.data().len() {
                Some(self.data()[self.pos() as int])
            } else {
                None::<u8>
            },
    {
        if self.at < self.bytes.len() {
            Some(self.bytes[self.at])
        } else {
            None
        }
    }

    /// The next `count` bytes. On a refusal the cursor does not move.
    ///
    /// # Errors
    /// Fewer than `count` bytes remain.
    pub fn take(&mut self, count: usize) -> (field: Result<&'a [u8], CodecError>)
        ensures
            final(self).data() == old(self).data(),
            match field {
                Ok(taken) => {
                    &&& old(self).pos() + count <= old(self).data().len()
                    &&& taken@ == old(self).data().subrange(
                        old(self).pos() as int,
                        old(self).pos() + count,
                    )
                    &&& final(self).pos() == old(self).pos() + count
                },
                Err(error) => {
                    &&& old(self).pos() + count > old(self).data().len()
                    &&& final(self).pos() == old(self).pos()
                    &&& error.message@ == past_end_message(
                        count as nat,
                        (old(self).data().len() - old(self).pos()) as nat,
                    )
                },
            },
    {
        proof {
            use_type_invariant(&*self);
        }
        let remain = self.bytes.len() - self.at;
        if count > remain {
            let mut message = String::from_str("a field of ");
            message.append(decimal(count).as_str());
            message.append(" bytes runs past the end, ");
            message.append(decimal(remain).as_str());
            message.append(" remain");
            return Err(CodecError::new(message));
        }
        let end = self.at + count;
        let slice = vstd::slice::slice_subrange(self.bytes, self.at, end);
        self.at = end;
        Ok(slice)
    }

    /// Everything that remains, taken.
    pub fn take_rest(&mut self) -> (rest: &'a [u8])
        ensures
            rest@ == old(self).rest(),
            final(self).data() == old(self).data(),
            final(self).pos() == old(self).data().len(),
    {
        let rest = self.remaining();
        self.at = self.bytes.len();
        rest
    }

    /// The bytes up to `delimiter`, taken with the delimiter, which is not
    /// returned: a NUL-terminated string when `delimiter` is zero.
    ///
    /// # Errors
    /// No `delimiter` remains.
    pub fn take_until(&mut self, delimiter: u8) -> (field: Result<&'a [u8], CodecError>)
        ensures
            final(self).data() == old(self).data(),
            match field {
                Ok(taken) => {
                    &&& first_index(old(self).rest(), delimiter) == Some(taken@.len())
                    &&& taken@ == old(self).rest().subrange(0, taken@.len() as int)
                    &&& final(self).pos() == old(self).pos() + taken@.len() + 1
                },
                Err(error) => {
                    &&& first_index(old(self).rest(), delimiter) is None
                    &&& final(self).pos() == old(self).pos()
                    &&& error.message@ == unended_message(delimiter)
                },
            },
    {
        proof {
            use_type_invariant(&*self);
        }
        let total = self.bytes.len();
        let rest = self.remaining();
        assert(rest@.len() == total - self.at);
        assert(rest@.subrange(0, rest@.len() as int) =~= rest@);
        let mut length: usize = 0;
        while length < rest.len() && rest[length] != delimiter
            invariant
                length <= rest@.len(),
                forall|j: int| 0 <= j < length ==> rest@[j] != delimiter,
                first_index(rest@, delimiter) == match first_index(
                    rest@.subrange(length as int, rest@.len() as int),
                    delimiter,
                ) {
                    Some(i) => Some((i + length) as nat),
                    None => None::<nat>,
                },
            decreases rest.len() - length,
        {
            proof {
                let tail = rest@.subrange(length as int, rest@.len() as int);
                assert(tail.drop_first() =~= rest@.subrange(length + 1, rest@.len() as int));
            }
            length += 1;
        }
        if length == rest.len() {
            proof {
                assert(rest@.subrange(length as int, rest@.len() as int) =~= Seq::<u8>::empty());
            }
            let mut message = String::from_str("a field that no 0x");
            push_char(&mut message, hex_digit(delimiter / 16, false));
            push_char(&mut message, hex_digit(delimiter % 16, false));
            message.append(" ends");
            return Err(CodecError::new(message));
        }
        self.at = self.at + length + 1;
        Ok(vstd::slice::slice_subrange(rest, 0, length))
    }

    /// Past the next `count` bytes.
    ///
    /// # Errors
    /// Fewer than `count` bytes remain.
    pub fn skip(&mut self, count: usize) -> (skipped: Result<(), CodecError>)
        ensures
            final(self).data() == old(self).data(),
            skipped is Ok <==> old(self).pos() + count <= old(self).data().len(),
            final(self).pos() == if skipped is Ok {
                old(self).pos() + count
            } else {
                old(self).pos() as int
            },
            skipped matches Err(error) ==> error.message@ == past_end_message(
                count as nat,
                (old(self).data().len() - old(self).pos()) as nat,
            ),
    {
        match self.take(count) {
            Ok(_) => Ok(()),
            Err(error) => Err(error),
        }
    }

    /// The next `N` bytes as an array.
    ///
    /// # Errors
    /// Fewer than `N` bytes remain.
    pub fn take_array<const N: usize>(&mut self) -> (field: Result<[u8; N], CodecError>)
        ensures
            final(self).data() == old(self).data(),
            match field {
                Ok(taken) => {
                    &&& old(self).pos() + N <= old(self).data().len()
                    &&& taken@ == old(self).data().subrange(
                        old(self).pos() as int,
                        old(self).pos() + N,
                    )
                    &&& final(self).pos() == old(self).pos() + N
                },
                Err(error) => {
                    &&& old(self).pos() + N > old(self).data().len()
                    &&& final(self).pos() == old(self).pos()
                    &&& error.message@ == past_end_message(
                        N as nat,
                        (old(self).data().len() - old(self).pos()) as nat,
                    )
                },
            },
    {
        let taken = match self.take(N) {
            Ok(taken) => taken,
            Err(error) => return Err(error),
        };
        let mut out = [0u8; N];
        let mut index: usize = 0;
        while index < N
            invariant
                index <= N,
                taken@.len() == N,
                out@.len() == N,
                forall|j: int| 0 <= j < index ==> out@[j] == taken@[j],
            decreases N - index,
        {
            out[index] = taken[index];
            index += 1;
        }
        assert(out@ =~= taken@);
        Ok(out)
    }

    /// The next byte.
    ///
    /// # Errors
    /// Nothing remains.
    pub fn byte(&mut self) -> (field: Result<u8, CodecError>)
        ensures
            final(self).data() == old(self).data(),
            match field {
                Ok(value) => {
                    &&& old(self).pos() < old(self).data().len()
                    &&& value == old(self).data()[old(self).pos() as int]
                    &&& final(self).pos() == old(self).pos() + 1
                },
                Err(error) => {
                    &&& old(self).pos() >= old(self).data().len()
                    &&& final(self).pos() == old(self).pos()
                    &&& error.message@ == past_end_message(
                        1,
                        (old(self).data().len() - old(self).pos()) as nat,
                    )
                },
            },
    {
        match self.take(1) {
            Ok(taken) => Ok(taken[0]),
            Err(error) => Err(error),
        }
    }

    /// The next byte as a two's-complement integer.
    ///
    /// # Errors
    /// Nothing remains.
    pub fn i8(&mut self) -> (field: Result<i8, CodecError>)
        ensures
            final(self).data() == old(self).data(),
            match field {
                Ok(value) => {
                    &&& old(self).pos() < old(self).data().len()
                    &&& value as int == signed(old(self).data()[old(self).pos() as int] as int, 8)
                    &&& final(self).pos() == old(self).pos() + 1
                },
                Err(error) => {
                    &&& old(self).pos() >= old(self).data().len()
                    &&& final(self).pos() == old(self).pos()
                    &&& error.message@ == past_end_message(
                        1,
                        (old(self).data().len() - old(self).pos()) as nat,
                    )
                },
            },
    {
        match self.byte() {
            Ok(value) => {
                proof {
                    vstd::arithmetic::power2::lemma2_to64();
                }
                let signed_value = as_i8(value);
                Ok(signed_value)
            },
            Err(error) => Err(error),
        }
    }

    /// The next varint ([`varint`]).
    ///
    /// # Errors
    /// The bytes end inside the varint, or it runs past ten bytes.
    pub fn varint(&mut self) -> (field: Result<u64, CodecError>)
        ensures
            final(self).data() == old(self).data(),
            match field {
                Ok(value) => {
                    &&& varint::decoding(old(self).rest()) matches Ok((decoded, length))
                    &&& decoded == value
                    &&& final(self).pos() == old(self).pos() + length
                },
                Err(error) => {
                    &&& varint::decoding(old(self).rest()) is Err
                    &&& error.message@ == varint::decoding(old(self).rest())->Err_0.words()
                    &&& final(self).pos() == old(self).pos()
                },
            },
    {
        proof {
            use_type_invariant(&*self);
        }
        let total = self.bytes.len();
        let rest = self.remaining();
        assert(rest@.len() == total - self.at);
        match varint::decode(rest) {
            Ok((value, length)) => {
                proof {
                    varint::lemma_decoding_length(old(self).rest());
                }
                self.at = self.at + length;
                Ok(value)
            },
            Err(why) => Err(why.to_codec_error()),
        }
    }

    /// The next `u16`, big-endian.
    ///
    /// # Errors
    /// Fewer bytes remain than the number is wide.
    pub fn u16_be(&mut self) -> (field: Result<u16, CodecError>)
        ensures
            final(self).data() == old(self).data(),
            match field {
                Ok(value) => {
                    &&& old(self).pos() + 2 <= old(self).data().len()
                    &&& value as int == be_value(old(self).data().subrange(old(self).pos() as int, old(self).pos() + 2int))
                    &&& final(self).pos() == old(self).pos() + 2
                },
                Err(error) => {
                    &&& old(self).pos() + 2 > old(self).data().len()
                    &&& final(self).pos() == old(self).pos()
                    &&& error.message@ == past_end_message(
                        2,
                        (old(self).data().len() - old(self).pos()) as nat,
                    )
                },
            },
    {
        match self.take_array::<2>() {
            Ok(bytes) => {
                let unsigned = be_u16(bytes[0], bytes[1]);                proof {                    lemma_be_value_2(bytes@);                }
                Ok(unsigned)
            },
            Err(error) => Err(error),
        }
    }

    /// The next `u16`, little-endian.
    ///
    /// # Errors
    /// Fewer bytes remain than the number is wide.
    pub fn u16_le(&mut self) -> (field: Result<u16, CodecError>)
        ensures
            final(self).data() == old(self).data(),
            match field {
                Ok(value) => {
                    &&& old(self).pos() + 2 <= old(self).data().len()
                    &&& value as int == le_value(old(self).data().subrange(old(self).pos() as int, old(self).pos() + 2int))
                    &&& final(self).pos() == old(self).pos() + 2
                },
                Err(error) => {
                    &&& old(self).pos() + 2 > old(self).data().len()
                    &&& final(self).pos() == old(self).pos()
                    &&& error.message@ == past_end_message(
                        2,
                        (old(self).data().len() - old(self).pos()) as nat,
                    )
                },
            },
    {
        match self.take_array::<2>() {
            Ok(bytes) => {
                let unsigned = be_u16(bytes[1], bytes[0]);                proof {                    lemma_be_value_2(bytes@);                }
                Ok(unsigned)
            },
            Err(error) => Err(error),
        }
    }

    /// The next `i16`, big-endian.
    ///
    /// # Errors
    /// Fewer bytes remain than the number is wide.
    pub fn i16_be(&mut self) -> (field: Result<i16, CodecError>)
        ensures
            final(self).data() == old(self).data(),
            match field {
                Ok(value) => {
                    &&& old(self).pos() + 2 <= old(self).data().len()
                    &&& value as int == signed(be_value(old(self).data().subrange(old(self).pos() as int, old(self).pos() + 2int)) as int, 16)
                    &&& final(self).pos() == old(self).pos() + 2
                },
                Err(error) => {
                    &&& old(self).pos() + 2 > old(self).data().len()
                    &&& final(self).pos() == old(self).pos()
                    &&& error.message@ == past_end_message(
                        2,
                        (old(self).data().len() - old(self).pos()) as nat,
                    )
                },
            },
    {
        match self.take_array::<2>() {
            Ok(bytes) => {
                let unsigned = be_u16(bytes[0], bytes[1]);                proof {                    lemma_be_value_2(bytes@);                }
                let value = as_i16(unsigned);
                proof {
                    vstd::arithmetic::power2::lemma2_to64();
                    vstd::arithmetic::power2::lemma2_to64_rest();
                }
                Ok(value)
            },
            Err(error) => Err(error),
        }
    }

    /// The next `i16`, little-endian.
    ///
    /// # Errors
    /// Fewer bytes remain than the number is wide.
    pub fn i16_le(&mut self) -> (field: Result<i16, CodecError>)
        ensures
            final(self).data() == old(self).data(),
            match field {
                Ok(value) => {
                    &&& old(self).pos() + 2 <= old(self).data().len()
                    &&& value as int == signed(le_value(old(self).data().subrange(old(self).pos() as int, old(self).pos() + 2int)) as int, 16)
                    &&& final(self).pos() == old(self).pos() + 2
                },
                Err(error) => {
                    &&& old(self).pos() + 2 > old(self).data().len()
                    &&& final(self).pos() == old(self).pos()
                    &&& error.message@ == past_end_message(
                        2,
                        (old(self).data().len() - old(self).pos()) as nat,
                    )
                },
            },
    {
        match self.take_array::<2>() {
            Ok(bytes) => {
                let unsigned = be_u16(bytes[1], bytes[0]);                proof {                    lemma_be_value_2(bytes@);                }
                let value = as_i16(unsigned);
                proof {
                    vstd::arithmetic::power2::lemma2_to64();
                    vstd::arithmetic::power2::lemma2_to64_rest();
                }
                Ok(value)
            },
            Err(error) => Err(error),
        }
    }

    /// The next `u32`, big-endian.
    ///
    /// # Errors
    /// Fewer bytes remain than the number is wide.
    pub fn u32_be(&mut self) -> (field: Result<u32, CodecError>)
        ensures
            final(self).data() == old(self).data(),
            match field {
                Ok(value) => {
                    &&& old(self).pos() + 4 <= old(self).data().len()
                    &&& value as int == be_value(old(self).data().subrange(old(self).pos() as int, old(self).pos() + 4int))
                    &&& final(self).pos() == old(self).pos() + 4
                },
                Err(error) => {
                    &&& old(self).pos() + 4 > old(self).data().len()
                    &&& final(self).pos() == old(self).pos()
                    &&& error.message@ == past_end_message(
                        4,
                        (old(self).data().len() - old(self).pos()) as nat,
                    )
                },
            },
    {
        match self.take_array::<4>() {
            Ok(bytes) => {
                let unsigned = be_u32(bytes[0], bytes[1], bytes[2], bytes[3]);                proof {                    lemma_be_value_4(bytes@);                }
                Ok(unsigned)
            },
            Err(error) => Err(error),
        }
    }

    /// The next `u32`, little-endian.
    ///
    /// # Errors
    /// Fewer bytes remain than the number is wide.
    pub fn u32_le(&mut self) -> (field: Result<u32, CodecError>)
        ensures
            final(self).data() == old(self).data(),
            match field {
                Ok(value) => {
                    &&& old(self).pos() + 4 <= old(self).data().len()
                    &&& value as int == le_value(old(self).data().subrange(old(self).pos() as int, old(self).pos() + 4int))
                    &&& final(self).pos() == old(self).pos() + 4
                },
                Err(error) => {
                    &&& old(self).pos() + 4 > old(self).data().len()
                    &&& final(self).pos() == old(self).pos()
                    &&& error.message@ == past_end_message(
                        4,
                        (old(self).data().len() - old(self).pos()) as nat,
                    )
                },
            },
    {
        match self.take_array::<4>() {
            Ok(bytes) => {
                let unsigned = be_u32(bytes[3], bytes[2], bytes[1], bytes[0]);                proof {                    lemma_be_value_4(bytes@);                }
                Ok(unsigned)
            },
            Err(error) => Err(error),
        }
    }

    /// The next `i32`, big-endian.
    ///
    /// # Errors
    /// Fewer bytes remain than the number is wide.
    pub fn i32_be(&mut self) -> (field: Result<i32, CodecError>)
        ensures
            final(self).data() == old(self).data(),
            match field {
                Ok(value) => {
                    &&& old(self).pos() + 4 <= old(self).data().len()
                    &&& value as int == signed(be_value(old(self).data().subrange(old(self).pos() as int, old(self).pos() + 4int)) as int, 32)
                    &&& final(self).pos() == old(self).pos() + 4
                },
                Err(error) => {
                    &&& old(self).pos() + 4 > old(self).data().len()
                    &&& final(self).pos() == old(self).pos()
                    &&& error.message@ == past_end_message(
                        4,
                        (old(self).data().len() - old(self).pos()) as nat,
                    )
                },
            },
    {
        match self.take_array::<4>() {
            Ok(bytes) => {
                let unsigned = be_u32(bytes[0], bytes[1], bytes[2], bytes[3]);                proof {                    lemma_be_value_4(bytes@);                }
                let value = as_i32(unsigned);
                proof {
                    vstd::arithmetic::power2::lemma2_to64();
                    vstd::arithmetic::power2::lemma2_to64_rest();
                }
                Ok(value)
            },
            Err(error) => Err(error),
        }
    }

    /// The next `i32`, little-endian.
    ///
    /// # Errors
    /// Fewer bytes remain than the number is wide.
    pub fn i32_le(&mut self) -> (field: Result<i32, CodecError>)
        ensures
            final(self).data() == old(self).data(),
            match field {
                Ok(value) => {
                    &&& old(self).pos() + 4 <= old(self).data().len()
                    &&& value as int == signed(le_value(old(self).data().subrange(old(self).pos() as int, old(self).pos() + 4int)) as int, 32)
                    &&& final(self).pos() == old(self).pos() + 4
                },
                Err(error) => {
                    &&& old(self).pos() + 4 > old(self).data().len()
                    &&& final(self).pos() == old(self).pos()
                    &&& error.message@ == past_end_message(
                        4,
                        (old(self).data().len() - old(self).pos()) as nat,
                    )
                },
            },
    {
        match self.take_array::<4>() {
            Ok(bytes) => {
                let unsigned = be_u32(bytes[3], bytes[2], bytes[1], bytes[0]);                proof {                    lemma_be_value_4(bytes@);                }
                let value = as_i32(unsigned);
                proof {
                    vstd::arithmetic::power2::lemma2_to64();
                    vstd::arithmetic::power2::lemma2_to64_rest();
                }
                Ok(value)
            },
            Err(error) => Err(error),
        }
    }

    /// The next `u64`, big-endian.
    ///
    /// # Errors
    /// Fewer bytes remain than the number is wide.
    pub fn u64_be(&mut self) -> (field: Result<u64, CodecError>)
        ensures
            final(self).data() == old(self).data(),
            match field {
                Ok(value) => {
                    &&& old(self).pos() + 8 <= old(self).data().len()
                    &&& value as int == be_value(old(self).data().subrange(old(self).pos() as int, old(self).pos() + 8int))
                    &&& final(self).pos() == old(self).pos() + 8
                },
                Err(error) => {
                    &&& old(self).pos() + 8 > old(self).data().len()
                    &&& final(self).pos() == old(self).pos()
                    &&& error.message@ == past_end_message(
                        8,
                        (old(self).data().len() - old(self).pos()) as nat,
                    )
                },
            },
    {
        match self.take_array::<8>() {
            Ok(bytes) => {
                let unsigned = be_u64(bytes[0], bytes[1], bytes[2], bytes[3], bytes[4], bytes[5], bytes[6], bytes[7]);                proof {                    lemma_be_value_8(bytes@);                }
                Ok(unsigned)
            },
            Err(error) => Err(error),
        }
    }

    /// The next `u64`, little-endian.
    ///
    /// # Errors
    /// Fewer bytes remain than the number is wide.
    pub fn u64_le(&mut self) -> (field: Result<u64, CodecError>)
        ensures
            final(self).data() == old(self).data(),
            match field {
                Ok(value) => {
                    &&& old(self).pos() + 8 <= old(self).data().len()
                    &&& value as int == le_value(old(self).data().subrange(old(self).pos() as int, old(self).pos() + 8int))
                    &&& final(self).pos() == old(self).pos() + 8
                },
                Err(error) => {
                    &&& old(self).pos() + 8 > old(self).data().len()
                    &&& final(self).pos() == old(self).pos()
                    &&& error.message@ == past_end_message(
                        8,
                        (old(self).data().len() - old(self).pos()) as nat,
                    )
                },
            },
    {
        match self.take_array::<8>() {
            Ok(bytes) => {
                let unsigned = be_u64(bytes[7], bytes[6], bytes[5], bytes[4], bytes[3], bytes[2], bytes[1], bytes[0]);                proof {                    lemma_be_value_8(bytes@);                }
                Ok(unsigned)
            },
            Err(error) => Err(error),
        }
    }

    /// The next `i64`, big-endian.
    ///
    /// # Errors
    /// Fewer bytes remain than the number is wide.
    pub fn i64_be(&mut self) -> (field: Result<i64, CodecError>)
        ensures
            final(self).data() == old(self).data(),
            match field {
                Ok(value) => {
                    &&& old(self).pos() + 8 <= old(self).data().len()
                    &&& value as int == signed(be_value(old(self).data().subrange(old(self).pos() as int, old(self).pos() + 8int)) as int, 64)
                    &&& final(self).pos() == old(self).pos() + 8
                },
                Err(error) => {
                    &&& old(self).pos() + 8 > old(self).data().len()
                    &&& final(self).pos() == old(self).pos()
                    &&& error.message@ == past_end_message(
                        8,
                        (old(self).data().len() - old(self).pos()) as nat,
                    )
                },
            },
    {
        match self.take_array::<8>() {
            Ok(bytes) => {
                let unsigned = be_u64(bytes[0], bytes[1], bytes[2], bytes[3], bytes[4], bytes[5], bytes[6], bytes[7]);                proof {                    lemma_be_value_8(bytes@);                }
                let value = as_i64(unsigned);
                proof {
                    vstd::arithmetic::power2::lemma2_to64();
                    vstd::arithmetic::power2::lemma2_to64_rest();
                }
                Ok(value)
            },
            Err(error) => Err(error),
        }
    }

    /// The next `i64`, little-endian.
    ///
    /// # Errors
    /// Fewer bytes remain than the number is wide.
    pub fn i64_le(&mut self) -> (field: Result<i64, CodecError>)
        ensures
            final(self).data() == old(self).data(),
            match field {
                Ok(value) => {
                    &&& old(self).pos() + 8 <= old(self).data().len()
                    &&& value as int == signed(le_value(old(self).data().subrange(old(self).pos() as int, old(self).pos() + 8int)) as int, 64)
                    &&& final(self).pos() == old(self).pos() + 8
                },
                Err(error) => {
                    &&& old(self).pos() + 8 > old(self).data().len()
                    &&& final(self).pos() == old(self).pos()
                    &&& error.message@ == past_end_message(
                        8,
                        (old(self).data().len() - old(self).pos()) as nat,
                    )
                },
            },
    {
        match self.take_array::<8>() {
            Ok(bytes) => {
                let unsigned = be_u64(bytes[7], bytes[6], bytes[5], bytes[4], bytes[3], bytes[2], bytes[1], bytes[0]);                proof {                    lemma_be_value_8(bytes@);                }
                let value = as_i64(unsigned);
                proof {
                    vstd::arithmetic::power2::lemma2_to64();
                    vstd::arithmetic::power2::lemma2_to64_rest();
                }
                Ok(value)
            },
            Err(error) => Err(error),
        }
    }
}

/// The number the bytes `hi`, `lo` write, high byte first.
fn be_u16(hi: u8, lo: u8) -> (value: u16)
    ensures
        value as int == hi as int * 256 + lo as int,
{
    let value = ((hi as u16) << 8u16) | (lo as u16);
    assert(value as int == hi as int * 256 + lo as int) by (bit_vector)
        requires
            value == ((hi as u16) << 8u16) | (lo as u16),
    ;
    value
}

/// The number four bytes write, highest first.
fn be_u32(b0: u8, b1: u8, b2: u8, b3: u8) -> (value: u32)
    ensures
        value as int == b0 as int * 16777216 + b1 as int * 65536 + b2 as int * 256 + b3 as int,
{
    let value = ((b0 as u32) << 24u32) | ((b1 as u32) << 16u32) | ((b2 as u32) << 8u32) | (b3 as u32);
    assert(value as int == b0 as int * 16777216 + b1 as int * 65536 + b2 as int * 256 + b3 as int)
        by (bit_vector)
        requires
            value == ((b0 as u32) << 24u32) | ((b1 as u32) << 16u32) | ((b2 as u32) << 8u32) | (
            b3 as u32),
    ;
    value
}

/// The number eight bytes write, highest first.
fn be_u64(b0: u8, b1: u8, b2: u8, b3: u8, b4: u8, b5: u8, b6: u8, b7: u8) -> (value: u64)
    ensures
        value as int == b0 as int * 72057594037927936 + b1 as int * 281474976710656 + b2 as int
            * 1099511627776 + b3 as int * 4294967296 + b4 as int * 16777216 + b5 as int * 65536
            + b6 as int * 256 + b7 as int,
{
    let value = ((b0 as u64) << 56u64) | ((b1 as u64) << 48u64) | ((b2 as u64) << 40u64) | ((
    b3 as u64) << 32u64) | ((b4 as u64) << 24u64) | ((b5 as u64) << 16u64) | ((b6 as u64) << 8u64)
        | (b7 as u64);
    assert(value as int == b0 as int * 72057594037927936 + b1 as int * 281474976710656 + b2 as int
        * 1099511627776 + b3 as int * 4294967296 + b4 as int * 16777216 + b5 as int * 65536 + b6 as int
        * 256 + b7 as int) by (bit_vector)
        requires
            value == ((b0 as u64) << 56u64) | ((b1 as u64) << 48u64) | ((b2 as u64) << 40u64) | ((
            b3 as u64) << 32u64) | ((b4 as u64) << 24u64) | ((b5 as u64) << 16u64) | ((b6 as u64)
                << 8u64) | (b7 as u64),
    ;
    value
}

/// `unsigned` read as two's complement.
fn as_i8(unsigned: u8) -> (value: i8)
    ensures
        value as int == if unsigned < 128 { unsigned as int } else { unsigned as int - 256 },
{
    let value = unsigned as i8;
    assert((unsigned < 128 ==> value as int == unsigned as int) && (unsigned >= 128 ==> value as int
        == unsigned as int - 256)) by (bit_vector)
        requires
            value == unsigned as i8,
    ;
    value
}

/// `unsigned` read as two's complement.
fn as_i16(unsigned: u16) -> (value: i16)
    ensures
        value as int == if unsigned < 0x8000 { unsigned as int } else { unsigned as int - 0x10000 },
{
    let value = unsigned as i16;
    assert((unsigned < 0x8000 ==> value as int == unsigned as int) && (unsigned >= 0x8000
        ==> value as int == unsigned as int - 0x10000)) by (bit_vector)
        requires
            value == unsigned as i16,
    ;
    value
}

/// `unsigned` read as two's complement.
fn as_i32(unsigned: u32) -> (value: i32)
    ensures
        value as int == if unsigned < 0x80000000 {
            unsigned as int
        } else {
            unsigned as int - 0x100000000
        },
{
    let value = unsigned as i32;
    assert((unsigned < 0x80000000 ==> value as int == unsigned as int) && (unsigned >= 0x80000000
        ==> value as int == unsigned as int - 0x100000000)) by (bit_vector)
        requires
            value == unsigned as i32,
    ;
    value
}

/// `unsigned` read as two's complement.
fn as_i64(unsigned: u64) -> (value: i64)
    ensures
        value as int == if unsigned < 0x8000000000000000 {
            unsigned as int
        } else {
            unsigned as int - 0x10000000000000000
        },
{
    let value = unsigned as i64;
    assert((unsigned < 0x8000000000000000 ==> value as int == unsigned as int) && (unsigned
        >= 0x8000000000000000 ==> value as int == unsigned as int - 0x10000000000000000))
        by (bit_vector)
        requires
            value == unsigned as i64,
    ;
    value
}

proof fn lemma_be_value_2(s: Seq<u8>)
    requires
        s.len() == 2,
    ensures
        be_value(s) == s[0] * 256 + s[1] * 1,
        le_value(s) == s[0] * 1 + s[1] * 256,
{
    reveal_with_fuel(be_value, 3);
    let r = s.reverse();
    assert(s.subrange(0, 1) =~= s.subrange(0, 2).drop_last());
    assert(r.subrange(0, 1) =~= r.subrange(0, 2).drop_last());
    assert(s.subrange(0, 0) =~= s.subrange(0, 1).drop_last());
    assert(r.subrange(0, 0) =~= r.subrange(0, 1).drop_last());
    assert(s.subrange(0, 2) =~= s);
    assert(r.subrange(0, 2) =~= r);
}

proof fn lemma_be_value_4(s: Seq<u8>)
    requires
        s.len() == 4,
    ensures
        be_value(s) == s[0] * 16777216 + s[1] * 65536 + s[2] * 256 + s[3] * 1,
        le_value(s) == s[0] * 1 + s[1] * 256 + s[2] * 65536 + s[3] * 16777216,
{
    reveal_with_fuel(be_value, 5);
    let r = s.reverse();
    assert(s.subrange(0, 3) =~= s.subrange(0, 4).drop_last());
    assert(r.subrange(0, 3) =~= r.subrange(0, 4).drop_last());
    assert(s.subrange(0, 2) =~= s.subrange(0, 3).drop_last());
    assert(r.subrange(0, 2) =~= r.subrange(0, 3).drop_last());
    assert(s.subrange(0, 1) =~= s.subrange(0, 2).drop_last());
    assert(r.subrange(0, 1) =~= r.subrange(0, 2).drop_last());
    assert(s.subrange(0, 0) =~= s.subrange(0, 1).drop_last());
    assert(r.subrange(0, 0) =~= r.subrange(0, 1).drop_last());
    assert(s.subrange(0, 4) =~= s);
    assert(r.subrange(0, 4) =~= r);
}

proof fn lemma_be_value_8(s: Seq<u8>)
    requires
        s.len() == 8,
    ensures
        be_value(s) == s[0] * 72057594037927936 + s[1] * 281474976710656 + s[2] * 1099511627776 + s[3] * 4294967296 + s[4] * 16777216 + s[5] * 65536 + s[6] * 256 + s[7] * 1,
        le_value(s) == s[0] * 1 + s[1] * 256 + s[2] * 65536 + s[3] * 16777216 + s[4] * 4294967296 + s[5] * 1099511627776 + s[6] * 281474976710656 + s[7] * 72057594037927936,
{
    reveal_with_fuel(be_value, 9);
    let r = s.reverse();
    assert(s.subrange(0, 7) =~= s.subrange(0, 8).drop_last());
    assert(r.subrange(0, 7) =~= r.subrange(0, 8).drop_last());
    assert(s.subrange(0, 6) =~= s.subrange(0, 7).drop_last());
    assert(r.subrange(0, 6) =~= r.subrange(0, 7).drop_last());
    assert(s.subrange(0, 5) =~= s.subrange(0, 6).drop_last());
    assert(r.subrange(0, 5) =~= r.subrange(0, 6).drop_last());
    assert(s.subrange(0, 4) =~= s.subrange(0, 5).drop_last());
    assert(r.subrange(0, 4) =~= r.subrange(0, 5).drop_last());
    assert(s.subrange(0, 3) =~= s.subrange(0, 4).drop_last());
    assert(r.subrange(0, 3) =~= r.subrange(0, 4).drop_last());
    assert(s.subrange(0, 2) =~= s.subrange(0, 3).drop_last());
    assert(r.subrange(0, 2) =~= r.subrange(0, 3).drop_last());
    assert(s.subrange(0, 1) =~= s.subrange(0, 2).drop_last());
    assert(r.subrange(0, 1) =~= r.subrange(0, 2).drop_last());
    assert(s.subrange(0, 0) =~= s.subrange(0, 1).drop_last());
    assert(r.subrange(0, 0) =~= r.subrange(0, 1).drop_last());
    assert(s.subrange(0, 8) =~= s);
    assert(r.subrange(0, 8) =~= r);
}

} // verus!

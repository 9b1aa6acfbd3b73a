//! The base-128 varint (unsigned LEB128) and the zig-zag mapping that puts
//! a signed integer into it.
//!
//! Seven bits a byte, low bits first, the high bit saying another byte
//! follows; ten bytes carry sixty-four bits and an eleventh is refused.

use crate::CodecError;
use vstd::arithmetic::power2::{
    lemma2_to64, lemma_pow2_adds, lemma_pow2_strictly_increases, lemma_pow2_unfold, pow2,
};
use vstd::prelude::*;
use vstd::std_specs::bits::{axiom_u64_leading_zeros, u64_leading_zeros};
use vstd::string::StringExecFns;

verus! {

/// Why the bytes are not a varint.
#[derive(Clone, Copy, Debug, PartialEq, Eq, Structural)]
pub enum VarintError {
    /// The bytes end while the high bit still says another follows.
    Unterminated,
    /// Ten bytes and the high bit still set.
    Overlong,
}

impl VarintError {
    /// What `self` says, in words.
    pub open spec fn words(self) -> Seq<char> {
        match self {
            VarintError::Unterminated => "the bytes end inside a varint"@,
            VarintError::Overlong => "a varint runs past ten bytes"@,
        }
    }

    /// What was wrong, in words.
    pub fn as_str(self) -> (text: &'static str)
        ensures
            text@ == self.words(),
    {
        match self {
            VarintError::Unterminated => "the bytes end inside a varint",
            VarintError::Overlong => "a varint runs past ten bytes",
        }
    }

    /// The same failure as a [`CodecError`], saying the same words.
    pub fn to_codec_error(self) -> (error: CodecError)
        ensures
            error.message@ == self.words(),
    {
        CodecError::new(String::from_str(self.as_str()))
    }
}

impl From<VarintError> for CodecError {
    fn from(error: VarintError) -> (converted: Self)
        ensures
            converted.message@ == error.words(),
    {
        error.to_codec_error()
    }
}

impl vstd::std_specs::convert::FromSpecImpl<VarintError> for CodecError {
    open spec fn obeys_from_spec() -> bool {
        false
    }

    open spec fn from_spec(v: VarintError) -> CodecError {
        arbitrary()
    }
}

/// The most bytes a varint of sixty-four bits takes.
pub const MAX_LENGTH: usize = 10;

/// Whether `byte` says another byte follows.
pub open spec fn continues(byte: u8) -> bool {
    byte & 0x80 != 0
}

/// The index of the first byte of `bytes` that ends a varint.
pub open spec fn first_end(bytes: Seq<u8>) -> Option<nat>
    decreases bytes.len(),
{
    if bytes.len() == 0 {
        None
    } else if !continues(bytes[0]) {
        Some(0)
    } else {
        match first_end(bytes.drop_first()) {
            Some(i) => Some(i + 1),
            None => None,
        }
    }
}

/// The value the seven low bits of each byte of `bytes` spell, low bits
/// first, bits past sixty-four dropped.
pub open spec fn value_of(bytes: Seq<u8>) -> u64
    decreases bytes.len(),
{
    if bytes.len() == 0 {
        0
    } else {
        ((bytes[0] & 0x7f) as u64) | (value_of(bytes.drop_first()) << 7u64)
    }
}

/// What [`decode`] makes of `bytes`.
pub open spec fn decoding(bytes: Seq<u8>) -> Result<(u64, nat), VarintError> {
    match first_end(bytes) {
        Some(i) if i < 10 => Ok((value_of(bytes.subrange(0, i + 1 as int)), i + 1)),
        _ => if bytes.len() > 10 {
            Err(VarintError::Overlong)
        } else {
            Err(VarintError::Unterminated)
        },
    }
}

/// The varint of `value`: seven bits a byte, low bits first.
pub open spec fn encoding(value: u64) -> Seq<u8>
    decreases value,
{
    let low = (value & 0x7f) as u8;
    if value >> 7u64 == 0 {
        seq![low]
    } else {
        proof {
            assert(value >> 7u64 < value) by (bit_vector)
                requires value >> 7u64 != 0;
        }
        seq![low | 0x80] + encoding(value >> 7u64)
    }
}

proof fn lemma_first_end_prefix(bytes: Seq<u8>, n: int)
    requires
        0 <= n < bytes.len(),
        forall|j: int| 0 <= j < n ==> continues(#[trigger] bytes[j]),
    ensures
        !continues(bytes[n]) ==> first_end(bytes) == Some(n as nat),
        continues(bytes[n]) ==> forall|j: int| 0 <= j <= n ==> continues(#[trigger] bytes[j]),
    decreases n,
{
    if n > 0 {
        let rest = bytes.drop_first();
        assert forall|j: int| 0 <= j < n - 1 implies continues(#[trigger] rest[j]) by {
            assert(rest[j] == bytes[j + 1]);
        }
        lemma_first_end_prefix(rest, n - 1);
    }
}

proof fn lemma_no_end(bytes: Seq<u8>)
    requires
        forall|j: int| 0 <= j < bytes.len() ==> continues(#[trigger] bytes[j]),
    ensures
        first_end(bytes) is None,
    decreases bytes.len(),
{
    if bytes.len() > 0 {
        let rest = bytes.drop_first();
        assert forall|j: int| 0 <= j < rest.len() implies continues(#[trigger] rest[j]) by {
            assert(rest[j] == bytes[j + 1]);
        }
        lemma_no_end(rest);
    }
}

proof fn lemma_late_end(bytes: Seq<u8>, n: int)
    requires
        0 <= n <= bytes.len(),
        forall|j: int| 0 <= j < n ==> continues(#[trigger] bytes[j]),
    ensures
        first_end(bytes) matches Some(i) ==> i >= n,
    decreases n,
{
    if n > 0 {
        let rest = bytes.drop_first();
        assert forall|j: int| 0 <= j < n - 1 implies continues(#[trigger] rest[j]) by {
            assert(rest[j] == bytes[j + 1]);
        }
        lemma_late_end(rest, n - 1);
    }
}

/// The varint `bytes` open with: its value and how many bytes it took.
///
/// # Errors
/// The bytes end inside the varint, or it runs past ten bytes.
pub fn decode(bytes: &[u8]) -> (result: Result<(u64, usize), VarintError>)
    ensures
        match result {
            Ok((value, length)) => decoding(bytes@) == Ok::<(u64, nat), VarintError>(
                (value, length as nat),
            ),
            Err(why) => decoding(bytes@) == Err::<(u64, nat), VarintError>(why),
        },
{
    let mut end: usize = 0;
    while end < bytes.len() && end < MAX_LENGTH && bytes[end] & 0x80 != 0
        invariant
            end <= bytes@.len(),
            end <= MAX_LENGTH,
            forall|j: int| 0 <= j < end ==> continues(#[trigger] bytes@[j]),
        decreases bytes.len() - end,
    {
        proof {
            lemma_first_end_prefix(bytes@, end as int);
        }
        end += 1;
    }
    if end == bytes.len() {
        proof {
            lemma_no_end(bytes@);
        }
        return Err(VarintError::Unterminated);
    }
    if end == MAX_LENGTH {
        proof {
            lemma_late_end(bytes@, 10);
        }
        return Err(VarintError::Overlong);
    }
    proof {
        lemma_first_end_prefix(bytes@, end as int);
    }
    // Seven bits a byte, gathered from the last byte back to the first.
    let mut value: u64 = 0;
    let mut index: usize = end + 1;
    assert(bytes@.subrange(index as int, end + 1) =~= Seq::<u8>::empty());
    while index > 0
        invariant
            index <= end + 1,
            end < bytes@.len(),
            value == value_of(bytes@.subrange(index as int, end + 1)),
        decreases index,
    {
        index -= 1;
        assert(bytes@.subrange(index as int, end + 1).drop_first() =~= bytes@.subrange(
            index + 1,
            end + 1,
        ));
        value = ((bytes[index] & 0x7f) as u64) | (value << 7u64);
    }
    Ok((value, end + 1))
}

/// `value` as a varint: the inverse of [`decode`].
pub fn encode(value: u64) -> (out: Vec<u8>)
    ensures
        out@ == encoding(value),
{
    let mut out = Vec::with_capacity(MAX_LENGTH);
    encode_into(&mut out, value);
    assert(out@ =~= encoding(value));
    out
}

/// `value` as a varint, appended to `out`.
pub fn encode_into(out: &mut Vec<u8>, value: u64)
    ensures
        final(out)@ == old(out)@ + encoding(value),
{
    let ghost start = out@;
    let mut rest = value;
    loop
        invariant
            start == old(out)@,
            start + encoding(value) == out@ + encoding(rest),
        decreases rest,
    {
        let low = (rest & 0x7f) as u8;
        assert(low < 128) by (bit_vector)
            requires low == (rest & 0x7f) as u8;
        let ghost before = rest;
        rest = rest >> 7u64;
        if rest == 0 {
            out.push(low);
            assert(out@ =~= start + encoding(value));
            return;
        }
        assert(before >> 7u64 < before) by (bit_vector)
            requires before >> 7u64 != 0;
        out.push(low | 0x80);
        assert(start + encoding(value) =~= out@ + encoding(rest));
    }
}

/// The zig-zag number of `value`: 0, -1, 1, -2 to 0, 1, 2, 3.
pub open spec fn zigzag_of(value: int) -> int {
    if value >= 0 { 2 * value } else { -2 * value - 1 }
}

/// The signed number whose zig-zag number is `encoded`.
pub open spec fn unzigzag_of(encoded: int) -> int {
    if encoded % 2 == 0 { encoded / 2 } else { -(encoded / 2) - 1 }
}

/// `value` zig-zagged: 0, -1, 1, -2 to 0, 1, 2, 3, so a small negative
/// number is a short varint.
pub fn zigzag(value: i64) -> (encoded: u64)
    ensures
        encoded == zigzag_of(value as int),
{
    if value >= 0 {
        (value as u64) * 2
    } else {
        ((-(value + 1)) as u64) * 2 + 1
    }
}

/// The signed value `encoded` zig-zags: the inverse of [`zigzag`].
pub fn unzigzag(encoded: u64) -> (value: i64)
    ensures
        value == unzigzag_of(encoded as int),
{
    let half = (encoded / 2) as i64;
    if encoded % 2 == 0 {
        half
    } else {
        -half - 1
    }
}

/// `128` to the power `k`.
pub open spec fn pow128(k: nat) -> int
    decreases k,
{
    if k == 0 { 1 } else { 128 * pow128((k - 1) as nat) }
}

proof fn lemma_low_bits(value: u64)
    by (bit_vector)
    ensures
        value >> 7u64 == value / 128,
        (((value & 0x7f) as u8 | 0x80) & 0x7f) as u64 == value & 0x7f,
        (((value & 0x7f) as u8) & 0x7f) as u64 == value & 0x7f,
        ((value & 0x7f) as u8 | 0x80) & 0x80 != 0,
        value >> 7u64 == 0 ==> ((value & 0x7f) as u8) & 0x80 == 0,
        (value & 0x7f) | ((value >> 7u64) << 7u64) == value,
        value >> 7u64 == 0 ==> (value & 0x7f) | (0u64 << 7u64) == value,
{
}

/// The shape of a varint: every byte but the last says another follows,
/// the last does not, and the bytes spell the value.
proof fn lemma_encoding(value: u64, k: nat)
    requires
        1 <= k,
        (value as int) < pow128(k),
    ensures
        1 <= encoding(value).len() <= k,
        forall|j: int| 0 <= j < encoding(value).len() - 1 ==> continues(#[trigger] encoding(value)[j]),
        !continues(encoding(value).last()),
        value_of(encoding(value)) == value,
    decreases k,
{
    lemma_low_bits(value);
    let bytes = encoding(value);
    if value >> 7u64 == 0 {
        assert(bytes.drop_first() =~= Seq::<u8>::empty());
        assert(value_of(Seq::<u8>::empty()) == 0);
        assert(value_of(bytes) == ((bytes[0] & 0x7f) as u64) | (0u64 << 7u64));
    } else {
        let rest = value >> 7u64;
        assert(k > 1) by (nonlinear_arith)
            requires (value as int) < pow128(k), value / 128 != 0, k >= 1,
                pow128(k) == 128 * pow128((k - 1) as nat);
        assert((rest as int) < pow128((k - 1) as nat)) by (nonlinear_arith)
            requires (value as int) < 128 * pow128((k - 1) as nat), rest == value / 128;
        lemma_encoding(rest, (k - 1) as nat);
        assert(bytes.drop_first() =~= encoding(rest));
        assert(value_of(bytes) == ((bytes[0] & 0x7f) as u64) | (rest << 7u64));
        assert forall|j: int| 0 <= j < bytes.len() - 1 implies continues(#[trigger] bytes[j]) by {
            if j > 0 {
                assert(bytes[j] == encoding(rest)[j - 1]);
            }
        }
    }
}

/// `pow128(10)` covers every `u64`.
proof fn lemma_ten_bytes_cover(value: u64)
    ensures
        (value as int) < pow128(10),
{
    reveal_with_fuel(pow128, 11);
    assert(pow128(10) == 0x40_0000_0000_0000_0000int);
}

/// A varint does not look past its last byte.
proof fn lemma_first_end_of_prefix(bytes: Seq<u8>, rest: Seq<u8>)
    requires
        bytes.len() >= 1,
        forall|j: int| 0 <= j < bytes.len() - 1 ==> continues(#[trigger] bytes[j]),
        !continues(bytes.last()),
    ensures
        first_end(bytes + rest) == Some((bytes.len() - 1) as nat),
{
    let all = bytes + rest;
    assert forall|j: int| 0 <= j < bytes.len() - 1 implies continues(#[trigger] all[j]) by {
        assert(all[j] == bytes[j]);
    }
    lemma_first_end_prefix(all, bytes.len() - 1);
}

/// Decoding inverts encoding: whatever follows it, the varint `encode`
/// writes for `value` decodes to `value`, and takes exactly its own bytes.
pub proof fn law_decode_inverts_encode(value: u64, rest: Seq<u8>)
    ensures
        decoding(encoding(value) + rest) == Ok::<(u64, nat), VarintError>(
            (value, encoding(value).len()),
        ),
        encoding(value).len() <= MAX_LENGTH,
{
    lemma_ten_bytes_cover(value);
    lemma_encoding(value, 10);
    let bytes = encoding(value);
    lemma_first_end_of_prefix(bytes, rest);
    assert((bytes + rest).subrange(0, bytes.len() as int) =~= bytes);
}

/// Zig-zag numbering is one to one: every `i64` comes back from its
/// number, and every `u64` is the number of the value it stands for.
pub proof fn law_zigzag_round_trip(value: i64, encoded: u64)
    ensures
        unzigzag_of(zigzag_of(value as int)) == value,
        0 <= zigzag_of(value as int) <= u64::MAX,
        zigzag_of(unzigzag_of(encoded as int)) == encoded,
        i64::MIN <= unzigzag_of(encoded as int) <= i64::MAX,
{
}

/// A varint that decodes takes at least one byte and no more than there are.
pub proof fn lemma_decoding_length(bytes: Seq<u8>)
    ensures
        decoding(bytes) matches Ok((_, length)) ==> 1 <= length <= bytes.len(),
{
    lemma_first_end_bound(bytes);
}

proof fn lemma_first_end_bound(bytes: Seq<u8>)
    ensures
        first_end(bytes) matches Some(i) ==> i < bytes.len(),
    decreases bytes.len(),
{
    if bytes.len() > 0 {
        lemma_first_end_bound(bytes.drop_first());
    }
}

/// How many base-128 digits `value` has: one, and one more for each
/// further seven bits.
pub open spec fn groups(value: nat) -> nat
    decreases value,
{
    if value < 128 {
        1
    } else {
        1 + groups(value / 128)
    }
}

/// A varint takes one byte for each base-128 digit of its value: seven
/// bits a byte.
pub proof fn law_encoding_length(value: u64)
    ensures
        encoding(value).len() == groups(value as nat),
    decreases value,
{
    assert(value >> 7u64 == value / 128 && ((value >> 7u64 == 0) == (value < 128))) by (bit_vector);
    if value >= 128 {
        law_encoding_length(value >> 7u64);
    }
}

/// The value of `groups` base-128 digits is under 2 to the `7 * groups`,
/// and, past the first, at least 2 to the `7 * (groups - 1)`.
proof fn lemma_groups_bounds(value: nat)
    ensures
        groups(value) >= 1,
        value < pow2(7 * groups(value)),
        groups(value) > 1 ==> pow2((7 * (groups(value) - 1)) as nat) <= value,
    decreases value,
{
    lemma2_to64();
    if value >= 128 {
        let below = value / 128;
        lemma_groups_bounds(below);
        let g = groups(below);
        lemma_pow2_adds(7 * g, 7);
        let high = pow2(7 * g);
        assert(value < high * 128) by (nonlinear_arith)
            requires below == value / 128, below < high;
        assert(7 * g + 7 == 7 * groups(value));
        if g > 1 {
            lemma_pow2_adds((7 * (g - 1)) as nat, 7);
            let low = pow2((7 * (g - 1)) as nat);
            assert(low * 128 <= value) by (nonlinear_arith)
                requires below == value / 128, low <= below;
            assert((7 * (g - 1)) as nat + 7 == 7 * g);
        }
    }
}

/// The number of bits `value` takes, `64` less its leading zeros, bounds
/// it: under 2 to that many, and at least 2 to one fewer.
proof fn lemma_bits_bounds(value: u64)
    ensures
        0 <= u64_leading_zeros(value) <= 64,
        value < pow2((64 - u64_leading_zeros(value)) as nat),
        value > 0 ==> pow2((64 - u64_leading_zeros(value) - 1) as nat) <= value,
    decreases value,
{
    reveal(u64_leading_zeros);
    axiom_u64_leading_zeros(value);
    lemma2_to64();
    if value > 0 {
        let half = value / 2;
        lemma_bits_bounds(half);
        axiom_u64_leading_zeros(half);
        let bits = (64 - u64_leading_zeros(half)) as nat;
        assert(64 - u64_leading_zeros(value) == bits + 1);
        lemma_pow2_unfold(bits + 1);
        assert(value < 2 * pow2(bits)) by (nonlinear_arith)
            requires half == value / 2, half < pow2(bits);
        if half > 0 {
            lemma_pow2_unfold(bits);
            assert(2 * pow2((bits - 1) as nat) <= value) by (nonlinear_arith)
                requires half == value / 2, pow2((bits - 1) as nat) <= half;
        }
    }
}

/// A varint takes a byte for every seven bits its value has begun, and at
/// least one: `max(1, (64 - leading zeros + 6) / 7)` bytes.
pub proof fn law_encoding_length_in_bits(value: u64)
    ensures
        encoding(value).len() == if value == 0 {
            1
        } else {
            (64 - u64_leading_zeros(value) + 6) / 7
        },
{
    law_encoding_length(value);
    lemma_groups_bounds(value as nat);
    lemma_bits_bounds(value);
    reveal(u64_leading_zeros);
    if value > 0 {
        let g = groups(value as nat);
        let bits = 64 - u64_leading_zeros(value);
        if bits - 1 >= 7 * g {
            if bits - 1 > 7 * g {
                lemma_pow2_strictly_increases(7 * g, (bits - 1) as nat);
            }
        }
        assert(bits <= 7 * g);
        if g > 1 {
            if 7 * (g - 1) >= bits {
                if 7 * (g - 1) > bits {
                    lemma_pow2_strictly_increases(bits as nat, (7 * (g - 1)) as nat);
                }
            }
            assert(7 * (g - 1) < bits);
        }
        assert((bits + 6) / 7 == g) by (nonlinear_arith)
            requires 7 * g - 6 <= bits <= 7 * g, g >= 1;
    }
}

} // verus!

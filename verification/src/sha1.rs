//! SHA-1 (FIPS 180-4 section 6.1), where a protocol still names it: the
//! WebSocket accept key (RFC 6455) and `MySQL`'s native password.

use vstd::prelude::*;

verus! {

/// A SHA-1 digest is twenty bytes.
pub const DIGEST_LENGTH: usize = 20;

/// `x` rotated left by `n` bits, `0 < n < 32`.
pub open spec fn rotl(x: u32, n: u32) -> u32 {
    (x << n) | (x >> ((32 - n) as u32))
}

/// The big-endian word at `at` in `bytes`.
pub open spec fn be_word(bytes: Seq<u8>, at: int) -> u32 {
    ((bytes[at] as u32) << 24u32) | ((bytes[at + 1] as u32) << 16u32) | ((bytes[at + 2] as u32)
        << 8u32) | (bytes[at + 3] as u32)
}

/// Word `i` of the message schedule of a 64-byte block (section 6.1.2 step 1).
pub open spec fn schedule(block: Seq<u8>, i: nat) -> u32
    decreases i,
{
    if i < 16 {
        be_word(block, 4 * i as int)
    } else {
        rotl(
            schedule(block, (i - 3) as nat) ^ schedule(block, (i - 8) as nat) ^ schedule(
                block,
                (i - 14) as nat,
            ) ^ schedule(block, (i - 16) as nat),
            1,
        )
    }
}

/// The logical function of round `i` (section 4.1.1).
pub open spec fn round_f(i: int, b: u32, c: u32, d: u32) -> u32 {
    if i < 20 {
        (b & c) | (!b & d)
    } else if i < 40 {
        b ^ c ^ d
    } else if i < 60 {
        (b & c) | (b & d) | (c & d)
    } else {
        b ^ c ^ d
    }
}

/// The constant of round `i` (section 4.2.1).
pub open spec fn round_k(i: int) -> u32 {
    if i < 20 {
        0x5a82_7999
    } else if i < 40 {
        0x6ed9_eba1
    } else if i < 60 {
        0x8f1b_bcdc
    } else {
        0xca62_c1d6
    }
}

/// The five working variables.
pub type Words = (u32, u32, u32, u32, u32);

/// The working variables after the first `n` rounds over `block` from `start`.
pub open spec fn rounds(start: Words, block: Seq<u8>, n: nat) -> Words
    decreases n,
{
    if n == 0 {
        start
    } else {
        let (a, b, c, d, e) = rounds(start, block, (n - 1) as nat);
        let i = n - 1;
        let next = rotl(a, 5).wrapping_add(round_f(i, b, c, d)).wrapping_add(e).wrapping_add(
            round_k(i),
        ).wrapping_add(schedule(block, i as nat));
        (next, a, rotl(b, 30), c, d)
    }
}

/// The hash value after one block (section 6.1.2 steps 2 to 4).
pub open spec fn compress(state: Words, block: Seq<u8>) -> Words {
    let (a, b, c, d, e) = rounds(state, block, 80);
    (
        state.0.wrapping_add(a),
        state.1.wrapping_add(b),
        state.2.wrapping_add(c),
        state.3.wrapping_add(d),
        state.4.wrapping_add(e),
    )
}

/// The initial hash value (section 5.3.1).
pub open spec fn initial() -> Words {
    (0x6745_2301, 0xefcd_ab89, 0x98ba_dcfe, 0x1032_5476, 0xc3d2_e1f0)
}

/// The hash value after the first `n` blocks of `padded`.
pub open spec fn process(padded: Seq<u8>, n: nat) -> Words
    decreases n,
{
    if n == 0 {
        initial()
    } else {
        compress(process(padded, (n - 1) as nat), padded.subrange(64 * (n - 1), 64 * n as int))
    }
}

/// How many zero bytes follow the `0x80` after a message of `length` bytes.
pub open spec fn zero_count(length: nat) -> nat {
    ((119 - length % 64) % 64) as nat
}

/// The eight bytes of `value`, big-endian.
pub open spec fn be_u64(value: u64) -> Seq<u8> {
    seq![
        (value >> 56u64) as u8,
        (value >> 48u64) as u8,
        (value >> 40u64) as u8,
        (value >> 32u64) as u8,
        (value >> 24u64) as u8,
        (value >> 16u64) as u8,
        (value >> 8u64) as u8,
        value as u8,
    ]
}

/// The message padded (section 5.1.1): a one bit, zeros, and the length in
/// bits modulo 2^64.
pub open spec fn pad(message: Seq<u8>) -> Seq<u8> {
    message + seq![0x80u8] + Seq::new(zero_count(message.len()), |i: int| 0u8) + be_u64(
        (message.len() as u64).wrapping_mul(8),
    )
}

/// The four bytes of `word`, big-endian.
pub open spec fn be_bytes(word: u32) -> Seq<u8> {
    seq![(word >> 24u32) as u8, (word >> 16u32) as u8, (word >> 8u32) as u8, word as u8]
}

/// The SHA-1 digest of `message`.
pub open spec fn sha1(message: Seq<u8>) -> Seq<u8> {
    let padded = pad(message);
    let (h0, h1, h2, h3, h4) = process(padded, padded.len() / 64);
    be_bytes(h0) + be_bytes(h1) + be_bytes(h2) + be_bytes(h3) + be_bytes(h4)
}

fn rotate(x: u32, n: u32) -> (r: u32)
    requires
        0 < n < 32,
    ensures
        r == rotl(x, n),
{
    (x << n) | (x >> (32 - n))
}

/// The message padded to a whole number of blocks.
fn padded_message(message: &[u8]) -> (padded: Vec<u8>)
    requires
        message.len() <= usize::MAX - 128,
    ensures
        padded@ == pad(message@),
        padded@.len() % 64 == 0,
{
    let length = message.len();
    let mut padded = vstd::slice::slice_to_vec(message);
    padded.push(0x80);
    let mut zeros: usize = 0;
    while padded.len() % 64 != 56
        invariant
            padded@.len() == length + 1 + zeros,
            length == message@.len(),
            length <= usize::MAX - 128,
            zeros < 64,
            (length + 1 + zeros) % 64 == 56 || zeros < zero_count(length as nat),
            padded@ == message@ + seq![0x80u8] + Seq::new(zeros as nat, |i: int| 0u8),
        decreases 64 - zeros,
    {
        padded.push(0);
        zeros += 1;
        assert(padded@ =~= message@ + seq![0x80u8] + Seq::new(zeros as nat, |i: int| 0u8));
    }
    assert(zeros == zero_count(length as nat));
    let bits = (length as u64).wrapping_mul(8);
    padded.push((bits >> 56) as u8);
    padded.push((bits >> 48) as u8);
    padded.push((bits >> 40) as u8);
    padded.push((bits >> 32) as u8);
    padded.push((bits >> 24) as u8);
    padded.push((bits >> 16) as u8);
    padded.push((bits >> 8) as u8);
    padded.push(bits as u8);
    assert(padded@ =~= pad(message@));
    padded
}

/// The state after one block, the block at `base` in `padded`.
fn compress_block(state: Words, padded: &Vec<u8>, base: usize) -> (next: Words)
    requires
        base + 64 <= padded.len(),
    ensures
        next == compress(state, padded@.subrange(base as int, base + 64)),
{
    let ghost block = padded@.subrange(base as int, base + 64);
    let mut w: Vec<u32> = Vec::new();
    let mut t: usize = 0;
    while t < 16
        invariant
            t <= 16,
            base + 64 <= padded.len(),
            block == padded@.subrange(base as int, base + 64),
            w@.len() == t,
            forall|j: int| 0 <= j < t ==> #[trigger] w@[j] == schedule(block, j as nat),
        decreases 16 - t,
    {
        let at = base + 4 * t;
        let word = ((padded[at] as u32) << 24u32) | ((padded[at + 1] as u32) << 16u32) | ((
        padded[at + 2] as u32) << 8u32) | (padded[at + 3] as u32);
        assert(word == be_word(block, 4 * t));
        w.push(word);
        t += 1;
    }
    while t < 80
        invariant
            16 <= t <= 80,
            w@.len() == t,
            forall|j: int| 0 <= j < t ==> #[trigger] w@[j] == schedule(block, j as nat),
        decreases 80 - t,
    {
        let mixed = w[t - 3] ^ w[t - 8] ^ w[t - 14] ^ w[t - 16];
        w.push(rotate(mixed, 1));
        t += 1;
    }
    let (mut a, mut b, mut c, mut d, mut e) = state;
    let mut i: usize = 0;
    while i < 80
        invariant
            i <= 80,
            w@.len() == 80,
            forall|j: int| 0 <= j < 80 ==> #[trigger] w@[j] == schedule(block, j as nat),
            (a, b, c, d, e) == rounds(state, block, i as nat),
        decreases 80 - i,
    {
        let (f, k): (u32, u32) = if i < 20 {
            ((b & c) | (!b & d), 0x5a82_7999)
        } else if i < 40 {
            (b ^ c ^ d, 0x6ed9_eba1)
        } else if i < 60 {
            ((b & c) | (b & d) | (c & d), 0x8f1b_bcdc)
        } else {
            (b ^ c ^ d, 0xca62_c1d6)
        };
        let next = rotate(a, 5).wrapping_add(f).wrapping_add(e).wrapping_add(k).wrapping_add(w[i]);
        e = d;
        d = c;
        c = rotate(b, 30);
        b = a;
        a = next;
        i += 1;
    }
    (
        state.0.wrapping_add(a),
        state.1.wrapping_add(b),
        state.2.wrapping_add(c),
        state.3.wrapping_add(d),
        state.4.wrapping_add(e),
    )
}

/// The SHA-1 digest of `message`.
pub fn digest(message: &[u8]) -> (out: [u8; DIGEST_LENGTH])
    requires
        message.len() <= usize::MAX - 128,
    ensures
        out@ == sha1(message@),
{
    let padded = padded_message(message);
    let blocks = padded.len() / 64;
    let mut state: Words = (0x6745_2301, 0xefcd_ab89, 0x98ba_dcfe, 0x1032_5476, 0xc3d2_e1f0);
    let mut index: usize = 0;
    while index < blocks
        invariant
            index <= blocks,
            blocks == padded@.len() / 64,
            padded@.len() % 64 == 0,
            state == process(padded@, index as nat),
        decreases blocks - index,
    {
        assert(64 * index + 64 <= padded.len()) by (nonlinear_arith)
            requires
                index < blocks,
                blocks == padded@.len() / 64,
                padded@.len() == padded.len(),
        ;
        state = compress_block(state, &padded, 64 * index);
        index += 1;
    }
    let (h0, h1, h2, h3, h4) = state;
    let out = [
        (h0 >> 24) as u8,
        (h0 >> 16) as u8,
        (h0 >> 8) as u8,
        h0 as u8,
        (h1 >> 24) as u8,
        (h1 >> 16) as u8,
        (h1 >> 8) as u8,
        h1 as u8,
        (h2 >> 24) as u8,
        (h2 >> 16) as u8,
        (h2 >> 8) as u8,
        h2 as u8,
        (h3 >> 24) as u8,
        (h3 >> 16) as u8,
        (h3 >> 8) as u8,
        h3 as u8,
        (h4 >> 24) as u8,
        (h4 >> 16) as u8,
        (h4 >> 8) as u8,
        h4 as u8,
    ];
    assert(out@ =~= sha1(message@));
    out
}

} // verus!

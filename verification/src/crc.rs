//! Cyclic redundancy checks: one implementation, parameterised the way the
//! CRC catalogue writes every CRC down (Williams's model: width,
//! polynomial, initial value, reflection in and out, final XOR), and each
//! CRC a protocol frames with a named constant of it.
//!
//! The width is the register's: `u8`, `u16`, `u32` or `u64`. Bit-at-a-time,
//! because every frame these check is short. The register's bits are
//! computed in a `u64` whatever the width, the bits past the width kept
//! clear.

use vstd::prelude::*;

verus! {

/// The low `width` bits set.
pub open spec fn mask(width: u64) -> u64 {
    if width >= 64 {
        0xffff_ffff_ffff_ffff
    } else {
        ((1u64 << width) - 1) as u64
    }
}

/// Whether `value` has no bit set at or past `width`.
pub open spec fn fits(value: u64, width: u64) -> bool {
    value & mask(width) == value
}

/// The low `n` bits of `value` pushed, lowest first, onto `acc`.
pub open spec fn reverse_into(value: u64, n: nat, acc: u64) -> u64
    decreases n,
{
    if n == 0 {
        acc
    } else {
        reverse_into(value >> 1u64, (n - 1) as nat, (acc << 1u64) | (value & 1))
    }
}

/// The low `width` bits of `value` in the opposite order.
pub open spec fn reflect_bits(value: u64, width: u64) -> u64 {
    reverse_into(value, width as nat, 0)
}

/// The register after one more bit is shifted through it.
pub open spec fn shift_once(register: u64, polynomial: u64, width: u64, reflected: bool) -> u64 {
    if reflected {
        if register & 1 == 0 {
            register >> 1u64
        } else {
            (register >> 1u64) ^ polynomial
        }
    } else {
        let shifted = (register << 1u64) & mask(width);
        if (register >> ((width - 1) as u64)) & 1 == 0 {
            shifted
        } else {
            shifted ^ polynomial
        }
    }
}

/// The register after `n` more bits are shifted through it.
pub open spec fn shift_bits(register: u64, polynomial: u64, width: u64, reflected: bool, n: nat) -> u64
    decreases n,
{
    if n == 0 {
        register
    } else {
        shift_once(
            shift_bits(register, polynomial, width, reflected, (n - 1) as nat),
            polynomial,
            width,
            reflected,
        )
    }
}

/// The register after `byte` enters it, lowest bit first where `reflected`.
pub open spec fn feed(register: u64, byte: u8, polynomial: u64, width: u64, reflected: bool) -> u64 {
    let entered = if reflected {
        register ^ (byte as u64)
    } else {
        register ^ ((byte as u64) << ((width - 8) as u64))
    };
    shift_bits(entered, polynomial, width, reflected, 8)
}

/// The register after `bytes` enter it from `start`.
pub open spec fn register_after(
    bytes: Seq<u8>,
    start: u64,
    polynomial: u64,
    width: u64,
    reflected: bool,
) -> u64
    decreases bytes.len(),
{
    if bytes.len() == 0 {
        start
    } else {
        feed(
            register_after(bytes.drop_last(), start, polynomial, width, reflected),
            bytes.last(),
            polynomial,
            width,
            reflected,
        )
    }
}

/// The CRC of `bytes` under the catalogue's parameters, the register
/// `width` bits wide.
pub open spec fn crc_of(
    width: u64,
    polynomial: u64,
    initial: u64,
    reflect_in: bool,
    reflect_out: bool,
    xor_out: u64,
    bytes: Seq<u8>,
) -> u64 {
    let poly = if reflect_in { reflect_bits(polynomial, width) } else { polynomial };
    let start = if reflect_in { reflect_bits(initial, width) } else { initial };
    let register = register_after(bytes, start, poly, width, reflect_in);
    let out = if reflect_in == reflect_out { register } else { reflect_bits(register, width) };
    out ^ xor_out
}

/// The register a CRC is computed in; its width is the CRC's width.
pub trait Register: Copy + Sized {
    /// The register's width in bits.
    spec fn spec_width() -> u64;

    /// The register's bits as a number.
    spec fn spec_bits(self) -> u64;

    /// The register's width in bits.
    fn width() -> (width: u64)
        ensures
            width == Self::spec_width(),
            8 <= width <= 64,
    ;

    /// The register's bits as a number.
    fn to_bits(self) -> (bits: u64)
        ensures
            bits == self.spec_bits(),
            fits(bits, Self::spec_width()),
    ;

    /// The register holding `bits`.
    fn from_bits(bits: u64) -> (register: Self)
        requires
            fits(bits, Self::spec_width()),
        ensures
            register.spec_bits() == bits,
    ;

    /// `byte` in the register's lowest eight bits.
    fn from_byte(byte: u8) -> (register: Self)
        ensures
            register.spec_bits() == byte as u64,
    ;

    /// The bits in the opposite order.
    fn reflect(self) -> (reflected: Self)
        ensures
            reflected.spec_bits() == reflect_bits(self.spec_bits(), Self::spec_width()),
    ;
}

proof fn lemma_fits_facts(a: u64, b: u64, width: u64)
    by (bit_vector)
    requires
        8 <= width <= 64,
    ensures
        (a & mask(width) == a && b & mask(width) == b) ==> (a ^ b) & mask(width) == a ^ b,
        a & mask(width) == a ==> (a >> 1u64) & mask(width) == a >> 1u64,
        ((a << 1u64) & mask(width)) & mask(width) == (a << 1u64) & mask(width),
        mask(64) == 0xffff_ffff_ffff_ffffu64,
{
}

proof fn lemma_byte_fits(byte: u8, width: u64)
    by (bit_vector)
    requires
        8 <= width <= 64,
    ensures
        (byte as u64) & mask(width) == byte as u64,
        ((byte as u64) << ((width - 8) as u64)) & mask(width) == (byte as u64) << ((width
            - 8) as u64),
        width < 64 ==> (1u64 << width) >= 1,
{
}

proof fn lemma_reverse_step_fits(acc: u64, value: u64, k: u64)
    by (bit_vector)
    requires
        k < 64,
        acc & mask(k) == acc,
    ensures
        ((acc << 1u64) | (value & 1)) & mask((k + 1) as u64) == (acc << 1u64) | (value & 1),
{
}

proof fn lemma_fits_wider(value: u64, k: u64, width: u64)
    by (bit_vector)
    requires
        k <= width <= 64,
        value & mask(k) == value,
    ensures
        value & mask(width) == value,
{
}

/// How each register type's bits sit in a `u64`.
proof fn lemma_register_casts(a: u8, b: u16, c: u32, d: u64, bits: u64)
    by (bit_vector)
    ensures
        (a as u64) & mask(8) == a as u64,
        (b as u64) & mask(16) == b as u64,
        (c as u64) & mask(32) == c as u64,
        d & mask(64) == d,
        bits & mask(8) == bits ==> (bits as u8) as u64 == bits,
        bits & mask(16) == bits ==> (bits as u16) as u64 == bits,
        bits & mask(32) == bits ==> (bits as u32) as u64 == bits,
{
}

/// The low `width` bits of `value` in the opposite order.
pub fn reflect_u64(value: u64, width: u64) -> (reflected: u64)
    requires
        width <= 64,
    ensures
        reflected == reflect_bits(value, width),
        fits(reflected, width),
{
    let mut rest = value;
    let mut acc: u64 = 0;
    let mut k: u64 = 0;
    assert(0u64 & mask(0) == 0u64) by (bit_vector);
    while k < width
        invariant
            k <= width <= 64,
            reverse_into(rest, (width - k) as nat, acc) == reflect_bits(value, width),
            fits(acc, k),
        decreases width - k,
    {
        proof {
            lemma_reverse_step_fits(acc, rest, k);
        }
        acc = (acc << 1u64) | (rest & 1);
        rest = rest >> 1u64;
        k += 1;
    }
    proof {
        lemma_fits_wider(acc, k, width);
    }
    acc
}

impl Register for u8 {
    open spec fn spec_width() -> u64 {
        8
    }

    open spec fn spec_bits(self) -> u64 {
        self as u64
    }

    fn width() -> (width: u64) {
        8
    }

    fn to_bits(self) -> (bits: u64) {
        proof {
            lemma_register_casts(0, 0, 0, self as u64, 0);
            lemma_register_casts(self as u8, self as u16, self as u32, self as u64, 0);
        }
        self as u64
    }

    fn from_bits(bits: u64) -> (register: Self) {
        proof {
            lemma_register_casts(0, 0, 0, 0, bits);
        }
        bits as u8
    }

    fn from_byte(byte: u8) -> (register: Self) {
        byte as u8
    }

    fn reflect(self) -> (reflected: Self) {
        let bits = reflect_u64(self.to_bits(), 8);
        Self::from_bits(bits)
    }
}

impl Register for u16 {
    open spec fn spec_width() -> u64 {
        16
    }

    open spec fn spec_bits(self) -> u64 {
        self as u64
    }

    fn width() -> (width: u64) {
        16
    }

    fn to_bits(self) -> (bits: u64) {
        proof {
            lemma_register_casts(0, 0, 0, self as u64, 0);
            lemma_register_casts(self as u8, self as u16, self as u32, self as u64, 0);
        }
        self as u64
    }

    fn from_bits(bits: u64) -> (register: Self) {
        proof {
            lemma_register_casts(0, 0, 0, 0, bits);
        }
        bits as u16
    }

    fn from_byte(byte: u8) -> (register: Self) {
        byte as u16
    }

    fn reflect(self) -> (reflected: Self) {
        let bits = reflect_u64(self.to_bits(), 16);
        Self::from_bits(bits)
    }
}

impl Register for u32 {
    open spec fn spec_width() -> u64 {
        32
    }

    open spec fn spec_bits(self) -> u64 {
        self as u64
    }

    fn width() -> (width: u64) {
        32
    }

    fn to_bits(self) -> (bits: u64) {
        proof {
            lemma_register_casts(0, 0, 0, self as u64, 0);
            lemma_register_casts(self as u8, self as u16, self as u32, self as u64, 0);
        }
        self as u64
    }

    fn from_bits(bits: u64) -> (register: Self) {
        proof {
            lemma_register_casts(0, 0, 0, 0, bits);
        }
        bits as u32
    }

    fn from_byte(byte: u8) -> (register: Self) {
        byte as u32
    }

    fn reflect(self) -> (reflected: Self) {
        let bits = reflect_u64(self.to_bits(), 32);
        Self::from_bits(bits)
    }
}

impl Register for u64 {
    open spec fn spec_width() -> u64 {
        64
    }

    open spec fn spec_bits(self) -> u64 {
        self as u64
    }

    fn width() -> (width: u64) {
        64
    }

    fn to_bits(self) -> (bits: u64) {
        proof {
            lemma_register_casts(0, 0, 0, self as u64, 0);
            lemma_register_casts(self as u8, self as u16, self as u32, self as u64, 0);
        }
        self as u64
    }

    fn from_bits(bits: u64) -> (register: Self) {
        bits
    }

    fn from_byte(byte: u8) -> (register: Self) {
        byte as u64
    }

    fn reflect(self) -> (reflected: Self) {
        let bits = reflect_u64(self.to_bits(), 64);
        Self::from_bits(bits)
    }
}

/// One CRC, as the catalogue parameterises it.
#[derive(Clone, Copy, Debug, PartialEq, Eq)]
pub struct Crc<R> {
    /// The generator polynomial, top bit implied, written unreflected.
    pub polynomial: R,
    /// The register before the first byte, written unreflected.
    pub initial: R,
    /// Whether each byte enters the register lowest bit first.
    pub reflect_in: bool,
    /// Whether the register is reflected before the final XOR.
    pub reflect_out: bool,
    /// What the register is combined with, by exclusive or, at the end.
    pub xor_out: R,
    /// The CRC of the nine ASCII bytes `123456789`, as the catalogue gives it.
    pub check: R,
}

impl<R: Register> Crc<R> {
    /// The CRC these parameters give `bytes`.
    pub open spec fn spec_checksum(&self, bytes: Seq<u8>) -> u64 {
        crc_of(
            R::spec_width(),
            self.polynomial.spec_bits(),
            self.initial.spec_bits(),
            self.reflect_in,
            self.reflect_out,
            self.xor_out.spec_bits(),
            bytes,
        )
    }

    /// The CRC of `bytes`.
    pub fn checksum(&self, bytes: &[u8]) -> (crc: R)
        ensures
            crc.spec_bits() == self.spec_checksum(bytes@),
    {
        let width = R::width();
        let reflected = self.reflect_in;
        let polynomial = if reflected {
            self.polynomial.reflect().to_bits()
        } else {
            self.polynomial.to_bits()
        };
        let mut register = if reflected {
            self.initial.reflect().to_bits()
        } else {
            self.initial.to_bits()
        };
        let ghost start = register;
        let mut index: usize = 0;
        while index < bytes.len()
            invariant
                index <= bytes@.len(),
                width == R::spec_width(),
                8 <= width <= 64,
                fits(register, width),
                fits(polynomial, width),
                register == register_after(
                    bytes@.subrange(0, index as int),
                    start,
                    polynomial,
                    width,
                    reflected,
                ),
            decreases bytes.len() - index,
        {
            register = feed_byte(register, bytes[index], polynomial, width, reflected);
            assert(bytes@.subrange(0, index + 1).drop_last() =~= bytes@.subrange(0, index as int));
            index += 1;
        }
        assert(bytes@.subrange(0, bytes.len() as int) =~= bytes@);
        let out = if self.reflect_in == self.reflect_out {
            register
        } else {
            reflect_u64(register, width)
        };
        let xor_out = self.xor_out.to_bits();
        proof {
            lemma_fits_facts(out, xor_out, width);
        }
        R::from_bits(out ^ xor_out)
    }
}

/// The register after `byte` enters it.
fn feed_byte(register: u64, byte: u8, polynomial: u64, width: u64, reflected: bool) -> (next: u64)
    requires
        8 <= width <= 64,
        fits(register, width),
        fits(polynomial, width),
    ensures
        next == feed(register, byte, polynomial, width, reflected),
        fits(next, width),
{
    proof {
        lemma_byte_fits(byte, width);
    }
    let mask = if width >= 64 { 0xffff_ffff_ffff_ffffu64 } else { (1u64 << width) - 1 };
    let byte64 = byte as u64;
    proof {
        lemma_fits_facts(register, byte64, width);
        lemma_fits_facts(register, byte64 << ((width - 8) as u64), width);
    }
    let mut bits = if reflected {
        register ^ byte64
    } else {
        register ^ (byte64 << (width - 8))
    };
    let ghost entered = bits;
    let mut n: u64 = 0;
    while n < 8
        invariant
            n <= 8,
            8 <= width <= 64,
            mask == crate::crc::mask(width),
            fits(bits, width),
            fits(polynomial, width),
            bits == shift_bits(entered, polynomial, width, reflected, n as nat),
        decreases 8 - n,
    {
        proof {
            lemma_fits_facts(bits, polynomial, width);
            lemma_fits_facts((bits >> 1u64), polynomial, width);
            lemma_fits_facts((bits << 1u64) & mask, polynomial, width);
        }
        bits = if reflected {
            if bits & 1 == 0 {
                bits >> 1u64
            } else {
                (bits >> 1u64) ^ polynomial
            }
        } else {
            let shifted = (bits << 1u64) & mask;
            if (bits >> (width - 1)) & 1 == 0 {
                shifted
            } else {
                shifted ^ polynomial
            }
        };
        n += 1;
    }
    bits
}

/// CRC-16/KERMIT: the IEEE 802.15.4 frame check sequence, which Thread,
/// `WirelessHART` and every other technology on that radio close a frame
/// with, least significant byte first.
pub fn crc_16_kermit() -> (crc: Crc<u16>)
    ensures
        (crc == Crc::<u16> {
    polynomial: 0x1021,
    initial: 0,
    reflect_in: true,
    reflect_out: true,
    xor_out: 0,
    check: 0x2189,
}),
{
    Crc {
    polynomial: 0x1021,
    initial: 0,
    reflect_in: true,
    reflect_out: true,
    xor_out: 0,
    check: 0x2189,
}
}

/// CRC-16/DNP: the check IEEE 1815 (DNP3) puts after a link header and
/// after every sixteen bytes of user data.
pub fn crc_16_dnp() -> (crc: Crc<u16>)
    ensures
        (crc == Crc::<u16> {
    polynomial: 0x3d65,
    initial: 0,
    reflect_in: true,
    reflect_out: true,
    xor_out: 0xffff,
    check: 0xea82,
}),
{
    Crc {
    polynomial: 0x3d65,
    initial: 0,
    reflect_in: true,
    reflect_out: true,
    xor_out: 0xffff,
    check: 0xea82,
}
}

/// CRC-16/EN-13757: the check wireless M-Bus (EN 13757-4) puts after
/// every block of a frame.
pub fn crc_16_en_13757() -> (crc: Crc<u16>)
    ensures
        (crc == Crc::<u16> {
    polynomial: 0x3d65,
    initial: 0,
    reflect_in: false,
    reflect_out: false,
    xor_out: 0xffff,
    check: 0xc2b7,
}),
{
    Crc {
    polynomial: 0x3d65,
    initial: 0,
    reflect_in: false,
    reflect_out: false,
    xor_out: 0xffff,
    check: 0xc2b7,
}
}

/// CRC-32/ISCSI, Castagnoli's CRC-32C: what a Kafka record batch header
/// carries over everything after it.
pub fn crc_32_iscsi() -> (crc: Crc<u32>)
    ensures
        (crc == Crc::<u32> {
    polynomial: 0x1edc_6f41,
    initial: 0xffff_ffff,
    reflect_in: true,
    reflect_out: true,
    xor_out: 0xffff_ffff,
    check: 0xe306_9283,
}),
{
    Crc {
    polynomial: 0x1edc_6f41,
    initial: 0xffff_ffff,
    reflect_in: true,
    reflect_out: true,
    xor_out: 0xffff_ffff,
    check: 0xe306_9283,
}
}

/// The frame check sequence of 3GPP TS 27.010 (formerly GSM 07.10), which
/// Bluetooth RFCOMM frames with: CRC-8/ROHC's polynomial, initial value and
/// reflection, complemented at the end. The catalogue lists CRC-8/ROHC
/// (check `0xd0`); this is it with `xor_out` `0xff`, so its check is
/// `0xd0 ^ 0xff`.
pub fn crc_8_ts_27_010() -> (crc: Crc<u8>)
    ensures
        (crc == Crc::<u8> {
    polynomial: 0x07,
    initial: 0xff,
    reflect_in: true,
    reflect_out: true,
    xor_out: 0xff,
    check: 0x2f,
}),
{
    Crc {
    polynomial: 0x07,
    initial: 0xff,
    reflect_in: true,
    reflect_out: true,
    xor_out: 0xff,
    check: 0x2f,
}
}

/// Two to the `n`.
pub open spec fn two_to(n: nat) -> nat
    decreases n,
{
    if n == 0 {
        1
    } else {
        2 * two_to((n - 1) as nat)
    }
}

/// The low `n` bits of `value` pushed, lowest first, onto `acc`, counted
/// as numbers: each step doubles what was pushed and adds the next bit.
pub open spec fn reversed(value: nat, n: nat, acc: nat) -> nat
    decreases n,
{
    if n == 0 {
        acc
    } else {
        reversed(value / 2, (n - 1) as nat, acc * 2 + value % 2)
    }
}

proof fn lemma_two_to_positive(n: nat)
    ensures
        two_to(n) >= 1,
    decreases n,
{
    if n > 0 {
        lemma_two_to_positive((n - 1) as nat);
    }
}

/// One more bit: the top one, pushed last.
proof fn lemma_reversed_top(value: nat, n: nat, acc: nat)
    ensures
        reversed(value, n + 1, acc) == 2 * reversed(value, n, acc) + (value / two_to(n)) % 2,
    decreases n,
{
    lemma_two_to_positive(n);
    let next = acc * 2 + value % 2;
    assert(reversed(value, n + 1, acc) == reversed(value / 2, n, next));
    if n == 0 {
        assert(two_to(0) == 1);
        assert(value / 1 == value);
    } else {
        let m = (n - 1) as nat;
        lemma_reversed_top(value / 2, m, next);
        lemma_two_to_positive(m);
        assert(reversed(value, n, acc) == reversed(value / 2, m, next));
        assert(two_to(n) == 2 * two_to(m));
        vstd::arithmetic::div_mod::lemma_div_denominator(value as int, 2, two_to(m) as int);
        assert((value / 2) / two_to(m) == value / two_to(n));
    }
}

/// What was on the stack before is shifted past the pushed bits.
proof fn lemma_reversed_acc(value: nat, n: nat, acc: nat)
    ensures
        reversed(value, n, acc) == acc * two_to(n) + reversed(value, n, 0),
    decreases n,
{
    if n > 0 {
        let m = (n - 1) as nat;
        lemma_reversed_acc(value, m, acc);
        lemma_reversed_top(value, m, acc);
        lemma_reversed_top(value, m, 0);
        assert(two_to(n) == 2 * two_to(m));
        assert(2 * (acc * two_to(m)) == acc * two_to(n)) by (nonlinear_arith)
            requires
                two_to(n) == 2 * two_to(m),
        ;
        assert(reversed(value, n, acc) == 2 * reversed(value, m, acc) + (value / two_to(m)) % 2);
        assert(reversed(value, n, 0) == 2 * reversed(value, m, 0) + (value / two_to(m)) % 2);
    } else {
        assert(two_to(0) == 1);
        assert(acc * 1 == acc);
    }
}

/// Only the low `n` bits count, and what is pushed is under `2^n`.
proof fn lemma_reversed_low(value: nat, n: nat, acc: nat)
    ensures
        reversed(value, n, acc) == reversed(value % two_to(n), n, acc),
        reversed(value, n, 0) < two_to(n),
    decreases n,
{
    lemma_two_to_positive(n);
    if n > 0 {
        let m = (n - 1) as nat;
        let t = two_to(m);
        lemma_two_to_positive(m);
        let low = value % two_to(n);
        lemma_reversed_low(value, m, acc);
        lemma_reversed_low(low, m, acc);
        lemma_reversed_top(value, m, acc);
        lemma_reversed_top(low, m, acc);
        lemma_reversed_top(value, m, 0);
        vstd::arithmetic::div_mod::lemma_mod_breakdown(value as int, t as int, 2);
        vstd::arithmetic::div_mod::lemma_mod_mod(value as int, t as int, 2);
        assert(two_to(n) == t * 2);
        let b = (value / t) % 2;
        assert(low == t * b + value % t);
        assert(low % t == value % t) by (nonlinear_arith)
            requires
                low == t * b + value % t,
                t >= 1,
                0 <= value % t < t,
        ;
        assert((low / t) % 2 == b) by (nonlinear_arith)
            requires
                low == t * b + value % t,
                t >= 1,
                0 <= value % t < t,
                0 <= b < 2,
        ;
        assert(reversed(value, n, 0) < two_to(n)) by (nonlinear_arith)
            requires
                reversed(value, n, 0) == 2 * reversed(value, m, 0) + b,
                reversed(value, m, 0) < t,
                two_to(n) == 2 * t,
                0 <= b < 2,
        ;
    }
}

/// Reversing the low `n` bits twice gives them back.
proof fn lemma_reversed_twice(value: nat, n: nat)
    requires
        value < two_to(n),
    ensures
        reversed(reversed(value, n, 0), n, 0) == value,
    decreases n,
{
    if n > 0 {
        let m = (n - 1) as nat;
        let t = two_to(m);
        lemma_two_to_positive(m);
        lemma_reversed_top(value, m, 0);
        let u = reversed(value, m, 0);
        let b = (value / t) % 2;
        let w = reversed(value, n, 0);
        assert(w == 2 * u + b);
        assert(w / 2 == u && w % 2 == b);
        lemma_reversed_acc(u, m, b);
        lemma_reversed_low(value, m, 0);
        let low = value % t;
        lemma_reversed_low(low, m, 0);
        assert(low < t);
        lemma_reversed_twice(low, m);
        assert(value / t < 2) by (nonlinear_arith)
            requires
                value < 2 * t,
                t >= 1,
        ;
        vstd::arithmetic::div_mod::lemma_fundamental_div_mod(value as int, t as int);
        assert(value == t * b + low);
        assert(b * t == t * b) by (nonlinear_arith);
    }
}

proof fn lemma_push_bit(acc: u64, value: u64)
    by (bit_vector)
    requires
        acc < 0x8000_0000_0000_0000,
    ensures
        (acc << 1u64) | (value & 1) == acc * 2 + value % 2,
        value >> 1u64 == value / 2,
{
}

proof fn lemma_two_to_grows(n: nat, k: nat)
    requires
        n <= k,
    ensures
        two_to(n) <= two_to(k),
    decreases k,
{
    if n < k {
        lemma_two_to_grows(n, (k - 1) as nat);
        lemma_two_to_positive((k - 1) as nat);
    }
}

proof fn lemma_two_to_63()
    ensures
        two_to(63) == 0x8000_0000_0000_0000,
{
    reveal_with_fuel(two_to, 64);
}

/// The bits as pushed in a `u64` are the bits as counted.
proof fn lemma_reverse_into_counts(value: u64, n: nat, acc: u64)
    requires
        n <= 64,
        acc < two_to((64 - n) as nat),
    ensures
        reverse_into(value, n, acc) == reversed(value as nat, n, acc as nat),
    decreases n,
{
    if n > 0 {
        let m = (n - 1) as nat;
        lemma_two_to_grows((64 - n) as nat, 63);
        lemma_two_to_63();
        lemma_push_bit(acc, value);
        let next = ((acc << 1u64) | (value & 1)) as u64;
        assert(two_to((64 - m) as nat) == 2 * two_to((64 - n) as nat));
        lemma_reverse_into_counts(value >> 1u64, m, next);
    }
}

/// Reflecting twice gives the bits back: the low `width` bits of a value
/// under `2^width`, reversed and reversed again, are the value.
pub proof fn law_reflect_twice(value: u64, width: u64)
    requires
        width <= 64,
        value < two_to(width as nat),
    ensures
        reflect_bits(reflect_bits(value, width), width) == value,
{
    lemma_two_to_positive((64 - width) as nat);
    lemma_reverse_into_counts(value, width as nat, 0);
    let once = reflect_bits(value, width);
    lemma_reverse_into_counts(once, width as nat, 0);
    lemma_reversed_low(value as nat, width as nat, 0);
    lemma_reversed_twice(value as nat, width as nat);
}

/// The CRC of no bytes is the initial register, reflected where the
/// result is reflected, through the final XOR; reflecting in and out alike
/// cancel.
pub proof fn law_empty_message<R: Register>(crc: Crc<R>)
    requires
        R::spec_width() <= 64,
        crc.initial.spec_bits() < two_to(R::spec_width() as nat),
    ensures
        crc.spec_checksum(Seq::<u8>::empty()) == (if crc.reflect_out {
            reflect_bits(crc.initial.spec_bits(), R::spec_width())
        } else {
            crc.initial.spec_bits()
        }) ^ crc.xor_out.spec_bits(),
{
    if crc.reflect_in && !crc.reflect_out {
        law_reflect_twice(crc.initial.spec_bits(), R::spec_width());
    }
}

} // verus!

//! Byte and bit utilities: big-endian integer assembly, two's-complement
//! sign extension, the two frame checksums, and zig-zag residual decoding.

use vstd::prelude::*;

verus! {

use vstd::arithmetic::power2::{
    pow2, lemma_pow2_adds, lemma_pow2_strictly_increases, lemma2_to64,
};
use vstd::bits::lemma_u32_shl_is_mul;

// ---------------------------------------------------------------------
// Big-endian assembly
// ---------------------------------------------------------------------

/// The unsigned integer that a byte sequence denotes, most significant
/// byte first.
pub open spec fn be_value(bytes: Seq<u8>) -> nat
    decreases bytes.len(),
{
    if bytes.len() == 0 {
        0
    } else {
        be_value(bytes.drop_last()) * 256 + bytes.last() as nat
    }
}

pub proof fn lemma_be_value_bound(bytes: Seq<u8>)
    ensures
        be_value(bytes) < pow2(8 * bytes.len()),
    decreases bytes.len(),
{
    lemma2_to64();
    if bytes.len() > 0 {
        lemma_be_value_bound(bytes.drop_last());
        lemma_pow2_adds(8 * (bytes.len() - 1) as nat, 8);
    }
}

/// Assembles a big-endian unsigned integer from at most four bytes.
pub fn to_u32(bytes: &[u8]) -> (r: u32)
    requires
        bytes@.len() <= 4,
    ensures
        r == be_value(bytes@),
{
    let mut result: u32 = 0;
    let mut i: usize = 0;
    while i < bytes.len()
        invariant
            i <= bytes@.len() <= 4,
            result == be_value(bytes@.take(i as int)),
        decreases bytes@.len() - i,
    {
        proof {
            lemma_be_value_bound(bytes@.take(i as int));
            assert(bytes@.take(i as int).len() == i);
            lemma2_to64();
            if 8 * i < 24 {
                lemma_pow2_strictly_increases(8 * i as nat, 24);
            }
            assert(bytes@.take(i + 1 as int).drop_last() =~= bytes@.take(i as int));
            assert(bytes@.take(i + 1 as int).last() == bytes@[i as int]);
        }
        result = result * 256 + (bytes[i] as u32);
        i += 1;
    }
    proof {
        assert(bytes@.take(bytes@.len() as int) =~= bytes@);
    }
    result
}

/// Assembles a big-endian unsigned integer from at most eight bytes.
pub fn to_u64(bytes: &[u8]) -> (r: u64)
    requires
        bytes@.len() <= 8,
    ensures
        r == be_value(bytes@),
{
    let mut result: u64 = 0;
    let mut i: usize = 0;
    while i < bytes.len()
        invariant
            i <= bytes@.len() <= 8,
            result == be_value(bytes@.take(i as int)),
        decreases bytes@.len() - i,
    {
        proof {
            lemma_be_value_bound(bytes@.take(i as int));
            assert(bytes@.take(i as int).len() == i);
            lemma2_to64();
            vstd::arithmetic::power2::lemma2_to64_rest();
            if 8 * i < 56 {
                lemma_pow2_strictly_increases(8 * i as nat, 56);
            }
            lemma_pow2_adds(8 * i as nat, 8);
            assert(bytes@.take(i + 1 as int).drop_last() =~= bytes@.take(i as int));
            assert(bytes@.take(i + 1 as int).last() == bytes@[i as int]);
        }
        result = result * 256 + (bytes[i] as u64);
        i += 1;
    }
    proof {
        assert(bytes@.take(bytes@.len() as int) =~= bytes@);
    }
    result
}

/// The unsigned integer that a byte sequence denotes, least significant
/// byte first.
pub open spec fn le_value(bytes: Seq<u8>) -> nat
    decreases bytes.len(),
{
    if bytes.len() == 0 {
        0
    } else {
        bytes.first() as nat + 256 * le_value(bytes.drop_first())
    }
}

pub proof fn lemma_le_value_bound(bytes: Seq<u8>)
    ensures
        le_value(bytes) < pow2(8 * bytes.len()),
    decreases bytes.len(),
{
    lemma2_to64();
    if bytes.len() > 0 {
        lemma_le_value_bound(bytes.drop_first());
        lemma_pow2_adds(8 * (bytes.len() - 1) as nat, 8);
    }
}

/// Assembles a little-endian unsigned integer from at most four bytes.
pub fn to_u32_le(bytes: &[u8]) -> (r: u32)
    requires
        bytes@.len() <= 4,
    ensures
        r == le_value(bytes@),
{
    let mut result: u32 = 0;
    let mut j: usize = bytes.len();
    while j > 0
        invariant
            j <= bytes@.len() <= 4,
            result == le_value(bytes@.skip(j as int)),
        decreases j,
    {
        proof {
            lemma_le_value_bound(bytes@.skip(j as int));
            assert(bytes@.skip(j as int).len() == bytes@.len() - j);
            lemma2_to64();
            if 8 * (bytes@.len() - j) < 24 {
                lemma_pow2_strictly_increases((8 * (bytes@.len() - j)) as nat, 24);
            }
            assert(bytes@.skip(j - 1 as int).drop_first() =~= bytes@.skip(j as int));
            assert(bytes@.skip(j - 1 as int).first() == bytes@[j - 1 as int]);
        }
        j -= 1;
        result = (bytes[j] as u32) + 256 * result;
    }
    proof {
        assert(bytes@.skip(0) =~= bytes@);
    }
    result
}

/// `n` clamped into the range of a `usize`.
pub open spec fn sat_usize(n: int) -> usize {
    if n <= usize::MAX {
        n as usize
    } else {
        usize::MAX
    }
}

/// Saturating addition on byte counts.
pub fn sat_add(a: usize, b: usize) -> (r: usize)
    ensures
        r == sat_usize(a + b),
{
    if a > usize::MAX - b {
        usize::MAX
    } else {
        a + b
    }
}

// ---------------------------------------------------------------------
// Sign extension
// ---------------------------------------------------------------------

/// The signed integer that `value` denotes when read as a two's-complement
/// number of width `bit_count`; widths of 32 and above reinterpret the
/// 32-bit value as it stands.
pub open spec fn extended_sign_value(value: u32, bit_count: nat) -> int {
    if bit_count >= 32 {
        if value < 0x8000_0000 {
            value as int
        } else {
            value - 0x1_0000_0000
        }
    } else if value < pow2((bit_count - 1) as nat) {
        value as int
    } else {
        value - pow2(bit_count)
    }
}

/// Interprets `value` as a two's-complement integer of width `bit_count`
/// (1 to 32) and widens it to a signed 32-bit integer.
pub fn extend_sign(value: u32, bit_count: usize) -> (r: i32)
    requires
        1 <= bit_count,
        bit_count >= 32 || value < pow2(bit_count as nat),
    ensures
        r == extended_sign_value(value, bit_count as nat),
{
    if bit_count >= 32 {
        proof {
            if value >= 0x8000_0000 {
                assert((value as i32) as int == value - 0x1_0000_0000) by (bit_vector)
                    requires
                        value >= 0x8000_0000u32,
                ;
            }
        }
        #[verifier::truncate] (value as i32)
    } else {
        let threshold: u32 = 1u32 << ((bit_count - 1) as u32);
        proof {
            lemma2_to64();
            if 8 * 0 + bit_count - 1 < 31 {
                lemma_pow2_strictly_increases((bit_count - 1) as nat, 31);
            }
            lemma_u32_shl_is_mul(1u32, (bit_count - 1) as u32);
        }
        if value < threshold {
            value as i32
        } else {
            let modulus: u32 = 1u32 << (bit_count as u32);
            proof {
                lemma2_to64();
                if bit_count < 31 {
                    lemma_pow2_strictly_increases(bit_count as nat, 31);
                }
                lemma_u32_shl_is_mul(1u32, bit_count as u32);
            }
            #[verifier::truncate] (((value as i64) - (modulus as i64)) as i32)
        }
    }
}

/// Two raised to the given power, computed by a left shift.
pub fn power_of_two(exponent: u32) -> (r: u32)
    requires
        exponent <= 31,
    ensures
        r == pow2(exponent as nat),
{
    proof {
        lemma2_to64();
        if exponent < 31 {
            lemma_pow2_strictly_increases(exponent as nat, 31);
        }
        lemma_u32_shl_is_mul(1u32, exponent);
    }
    1u32 << exponent
}

// ---------------------------------------------------------------------
// CRC-8 (polynomial 0x07) and CRC-16 (polynomial 0x8005), both
// initialised to zero and computed most-significant-bit first.
// ---------------------------------------------------------------------

/// One shift-and-conditionally-xor step of the CRC-8 register.
pub open spec fn crc8_shift(crc: u8) -> u8 {
    if crc >= 0x80 {
        (crc << 1) ^ 0x07
    } else {
        crc << 1
    }
}

/// `k` register steps applied in sequence.
pub open spec fn crc8_steps(crc: u8, k: nat) -> u8
    decreases k,
{
    if k == 0 {
        crc
    } else {
        crc8_shift(crc8_steps(crc, (k - 1) as nat))
    }
}

/// The CRC-8 of a byte sequence.
pub open spec fn crc8_value(bytes: Seq<u8>) -> u8
    decreases bytes.len(),
{
    if bytes.len() == 0 {
        0
    } else {
        crc8_steps(crc8_value(bytes.drop_last()) ^ bytes.last(), 8)
    }
}

/// Computes the CRC-8 with polynomial 0x07 over a whole byte span.
pub fn crc8(bytes: &[u8]) -> (r: u8)
    ensures
        r == crc8_value(bytes@),
{
    let mut crc: u8 = 0;
    let mut i: usize = 0;
    while i < bytes.len()
        invariant
            i <= bytes@.len(),
            crc == crc8_value(bytes@.take(i as int)),
        decreases bytes@.len() - i,
    {
        proof {
            assert(bytes@.take(i + 1 as int).drop_last() =~= bytes@.take(i as int));
        }
        crc = crc ^ bytes[i];
        let ghost entering: u8 = crc;
        let mut k: usize = 0;
        while k < 8
            invariant
                k <= 8,
                crc == crc8_steps(entering, k as nat),
            decreases 8 - k,
        {
            if crc >= 0x80 {
                crc = (crc << 1u8) ^ 0x07;
            } else {
                crc = crc << 1u8;
            }
            k += 1;
        }
        i += 1;
    }
    proof {
        assert(bytes@.take(bytes@.len() as int) =~= bytes@);
    }
    crc
}

/// One shift-and-conditionally-xor step of the CRC-16 register.
pub open spec fn crc16_shift(crc: u16) -> u16 {
    if crc >= 0x8000 {
        (crc << 1) ^ 0x8005
    } else {
        crc << 1
    }
}

/// `k` register steps applied in sequence.
pub open spec fn crc16_steps(crc: u16, k: nat) -> u16
    decreases k,
{
    if k == 0 {
        crc
    } else {
        crc16_shift(crc16_steps(crc, (k - 1) as nat))
    }
}

/// The CRC-16 of a byte sequence.
pub open spec fn crc16_value(bytes: Seq<u8>) -> u16
    decreases bytes.len(),
{
    if bytes.len() == 0 {
        0
    } else {
        crc16_steps(crc16_value(bytes.drop_last()) ^ ((bytes.last() as u16) << 8), 8)
    }
}

/// Computes the CRC-16 with polynomial 0x8005 over a whole byte span.
pub fn crc16(bytes: &[u8]) -> (r: u16)
    ensures
        r == crc16_value(bytes@),
{
    let mut crc: u16 = 0;
    let mut i: usize = 0;
    while i < bytes.len()
        invariant
            i <= bytes@.len(),
            crc == crc16_value(bytes@.take(i as int)),
        decreases bytes@.len() - i,
    {
        proof {
            assert(bytes@.take(i + 1 as int).drop_last() =~= bytes@.take(i as int));
        }
        crc = crc ^ ((bytes[i] as u16) << 8u16);
        let ghost entering: u16 = crc;
        let mut k: usize = 0;
        while k < 8
            invariant
                k <= 8,
                crc == crc16_steps(entering, k as nat),
            decreases 8 - k,
        {
            if crc >= 0x8000 {
                crc = (crc << 1u16) ^ 0x8005;
            } else {
                crc = crc << 1u16;
            }
            k += 1;
        }
        i += 1;
    }
    proof {
        assert(bytes@.take(bytes@.len() as int) =~= bytes@);
    }
    crc
}

proof fn lemma_crc8_shift_injective(a: u8, b: u8)
    requires
        a != b,
    ensures
        crc8_shift(a) != crc8_shift(b),
{
    assert((if a >= 0x80 {
        (a << 1) ^ 0x07u8
    } else {
        a << 1
    }) != (if b >= 0x80 {
        (b << 1) ^ 0x07u8
    } else {
        b << 1
    })) by (bit_vector)
        requires
            a != b,
    ;
}

proof fn lemma_crc8_steps_injective(a: u8, b: u8, k: nat)
    requires
        a != b,
    ensures
        crc8_steps(a, k) != crc8_steps(b, k),
    decreases k,
{
    if k > 0 {
        lemma_crc8_steps_injective(a, b, (k - 1) as nat);
        lemma_crc8_shift_injective(crc8_steps(a, (k - 1) as nat), crc8_steps(b, (k - 1) as nat));
    }
}

/// Any corruption confined to a single byte changes the CRC-8; in
/// particular a single flipped bit is always detected.
pub proof fn lemma_crc8_detects_byte_change(s1: Seq<u8>, s2: Seq<u8>, j: int)
    requires
        s1.len() == s2.len(),
        0 <= j < s1.len(),
        s1[j] != s2[j],
        forall|i: int| 0 <= i < s1.len() && i != j ==> s1[i] == s2[i],
    ensures
        crc8_value(s1) != crc8_value(s2),
    decreases s1.len(),
{
    if j == s1.len() - 1 {
        assert(s1.drop_last() =~= s2.drop_last());
        let c: u8 = crc8_value(s1.drop_last());
        let x: u8 = s1.last();
        let y: u8 = s2.last();
        assert(c ^ x != c ^ y) by (bit_vector)
            requires
                x != y,
        ;
        lemma_crc8_steps_injective(c ^ x, c ^ y, 8);
    } else {
        lemma_crc8_detects_byte_change(s1.drop_last(), s2.drop_last(), j);
        let c1: u8 = crc8_value(s1.drop_last());
        let c2: u8 = crc8_value(s2.drop_last());
        let b: u8 = s1.last();
        assert(s2.last() == b);
        assert(c1 ^ b != c2 ^ b) by (bit_vector)
            requires
                c1 != c2,
        ;
        lemma_crc8_steps_injective(c1 ^ b, c2 ^ b, 8);
    }
}

/// A single bit flip anywhere in the input changes the CRC-8.
pub proof fn lemma_crc8_detects_bit_flip(s1: Seq<u8>, s2: Seq<u8>, j: int, k: u8)
    requires
        s1.len() == s2.len(),
        0 <= j < s1.len(),
        k < 8,
        s2[j] == s1[j] ^ (1u8 << k),
        forall|i: int| 0 <= i < s1.len() && i != j ==> s1[i] == s2[i],
    ensures
        crc8_value(s1) != crc8_value(s2),
{
    let b: u8 = s1[j];
    assert(b != b ^ (1u8 << k)) by (bit_vector)
        requires
            k < 8,
    ;
    lemma_crc8_detects_byte_change(s1, s2, j);
}

proof fn lemma_crc16_shift_injective(a: u16, b: u16)
    requires
        a != b,
    ensures
        crc16_shift(a) != crc16_shift(b),
{
    assert((if a >= 0x8000 {
        (a << 1) ^ 0x8005u16
    } else {
        a << 1
    }) != (if b >= 0x8000 {
        (b << 1) ^ 0x8005u16
    } else {
        b << 1
    })) by (bit_vector)
        requires
            a != b,
    ;
}

proof fn lemma_crc16_steps_injective(a: u16, b: u16, k: nat)
    requires
        a != b,
    ensures
        crc16_steps(a, k) != crc16_steps(b, k),
    decreases k,
{
    if k > 0 {
        lemma_crc16_steps_injective(a, b, (k - 1) as nat);
        lemma_crc16_shift_injective(
            crc16_steps(a, (k - 1) as nat),
            crc16_steps(b, (k - 1) as nat),
        );
    }
}

/// Any corruption confined to a single byte changes the CRC-16; in
/// particular a single flipped bit is always detected.
pub proof fn lemma_crc16_detects_byte_change(s1: Seq<u8>, s2: Seq<u8>, j: int)
    requires
        s1.len() == s2.len(),
        0 <= j < s1.len(),
        s1[j] != s2[j],
        forall|i: int| 0 <= i < s1.len() && i != j ==> s1[i] == s2[i],
    ensures
        crc16_value(s1) != crc16_value(s2),
    decreases s1.len(),
{
    if j == s1.len() - 1 {
        assert(s1.drop_last() =~= s2.drop_last());
        let c: u16 = crc16_value(s1.drop_last());
        let x: u8 = s1.last();
        let y: u8 = s2.last();
        assert(c ^ ((x as u16) << 8) != c ^ ((y as u16) << 8)) by (bit_vector)
            requires
                x != y,
        ;
        lemma_crc16_steps_injective(c ^ ((x as u16) << 8), c ^ ((y as u16) << 8), 8);
    } else {
        lemma_crc16_detects_byte_change(s1.drop_last(), s2.drop_last(), j);
        let c1: u16 = crc16_value(s1.drop_last());
        let c2: u16 = crc16_value(s2.drop_last());
        let b: u8 = s1.last();
        assert(s2.last() == b);
        assert(c1 ^ ((b as u16) << 8) != c2 ^ ((b as u16) << 8)) by (bit_vector)
            requires
                c1 != c2,
        ;
        lemma_crc16_steps_injective(c1 ^ ((b as u16) << 8), c2 ^ ((b as u16) << 8), 8);
    }
}

/// A single bit flip anywhere in the input changes the CRC-16.
pub proof fn lemma_crc16_detects_bit_flip(s1: Seq<u8>, s2: Seq<u8>, j: int, k: u8)
    requires
        s1.len() == s2.len(),
        0 <= j < s1.len(),
        k < 8,
        s2[j] == s1[j] ^ (1u8 << k),
        forall|i: int| 0 <= i < s1.len() && i != j ==> s1[i] == s2[i],
    ensures
        crc16_value(s1) != crc16_value(s2),
{
    let b: u8 = s1[j];
    assert(b != b ^ (1u8 << k)) by (bit_vector)
        requires
            k < 8,
    ;
    lemma_crc16_detects_byte_change(s1, s2, j);
}

// ---------------------------------------------------------------------
// Zig-zag decoding of Rice-coded residuals
// ---------------------------------------------------------------------

/// The signed residual that the zig-zag code `value` denotes:
/// 0, 1, 2, 3, 4, ... decode to 0, -1, 1, -2, 2, ...
pub open spec fn zigzag_value(value: u64) -> int {
    if value % 2 == 0 {
        (value as int) / 2
    } else {
        -((value as int + 1) / 2)
    }
}

/// Decodes a zig-zag coded unsigned value into its signed residual, the
/// inverse of `(u >> 1) ^ -(u & 1)` encoding.
pub fn zigzag_decode(value: u64) -> (r: i64)
    ensures
        r == zigzag_value(value),
{
    let half: u64 = value >> 1u64;
    proof {
        assert(value >> 1u64 == value / 2 && value >> 1u64 < 0x8000_0000_0000_0000u64
            && (value & 1 == value % 2)) by (bit_vector);
    }
    if value & 1 == 0 {
        half as i64
    } else {
        proof {
            assert(value == 2 * half + 1) by (nonlinear_arith)
                requires
                    half == value / 2,
                    value % 2 == 1,
            ;
        }
        -(half as i64) - 1
    }
}

/// Zig-zag decoding is strictly monotone on each parity class: increasing
/// on even codes and decreasing on odd codes.
pub proof fn lemma_zigzag_monotone(u: u64, v: u64)
    requires
        u < v,
        u % 2 == v % 2,
    ensures
        u % 2 == 0 ==> zigzag_value(u) < zigzag_value(v),
        u % 2 == 1 ==> zigzag_value(u) > zigzag_value(v),
{
    assert(u % 2 == 0 ==> u as int / 2 < v as int / 2) by (nonlinear_arith)
        requires
            u < v,
            u % 2 == v % 2,
    ;
    assert(u % 2 == 1 ==> (u as int + 1) / 2 < (v as int + 1) / 2) by (nonlinear_arith)
        requires
            u < v,
            u % 2 == v % 2,
    ;
}

/// Consecutive even and odd codes decode to `k` and `-(k + 1)`: the decoded
/// values run 0, -1, 1, -2, 2, ... as the code counts upward.
pub proof fn lemma_zigzag_alternates(k: u64)
    requires
        k < 0x8000_0000_0000_0000,
    ensures
        zigzag_value((2 * k) as u64) == k,
        zigzag_value((2 * k + 1) as u64) == -(k as int + 1),
{
}

// ---------------------------------------------------------------------
// Byte encodings and an append-style writer
// ---------------------------------------------------------------------

/// A single byte.
pub open spec fn enc_u8(n: u8) -> Seq<u8> {
    seq![n]
}

/// Two bytes, big endian.
pub open spec fn enc_be16(n: u16) -> Seq<u8> {
    seq![(n >> 8) as u8, n as u8]
}

/// Two bytes, little endian.
pub open spec fn enc_le16(n: u16) -> Seq<u8> {
    seq![n as u8, (n >> 8) as u8]
}

/// The low three bytes, big endian.
pub open spec fn enc_be24(n: u32) -> Seq<u8> {
    seq![(n >> 16) as u8, (n >> 8) as u8, n as u8]
}

/// The low three bytes, little endian.
pub open spec fn enc_le24(n: u32) -> Seq<u8> {
    seq![n as u8, (n >> 8) as u8, (n >> 16) as u8]
}

/// Four bytes, big endian.
pub open spec fn enc_be32(n: u32) -> Seq<u8> {
    seq![(n >> 24) as u8, (n >> 16) as u8, (n >> 8) as u8, n as u8]
}

/// Four bytes, little endian.
pub open spec fn enc_le32(n: u32) -> Seq<u8> {
    seq![n as u8, (n >> 8) as u8, (n >> 16) as u8, (n >> 24) as u8]
}

/// Eight bytes, big endian.
pub open spec fn enc_be64(n: u64) -> Seq<u8> {
    seq![
        (n >> 56) as u8,
        (n >> 48) as u8,
        (n >> 40) as u8,
        (n >> 32) as u8,
        (n >> 24) as u8,
        (n >> 16) as u8,
        (n >> 8) as u8,
        n as u8,
    ]
}

/// Eight bytes, little endian.
pub open spec fn enc_le64(n: u64) -> Seq<u8> {
    seq![
        n as u8,
        (n >> 8) as u8,
        (n >> 16) as u8,
        (n >> 24) as u8,
        (n >> 32) as u8,
        (n >> 40) as u8,
        (n >> 48) as u8,
        (n >> 56) as u8,
    ]
}

/// Appending fixed-width integers, in either endianness, to a byte sink.
pub trait WriteExtension {
    /// The bytes written so far.
    spec fn content(&self) -> Seq<u8>;

    fn write_u8(&mut self, number: u8)
        ensures
            final(self).content() == old(self).content() + enc_u8(number),
    ;

    fn write_be_u16(&mut self, number: u16)
        ensures
            final(self).content() == old(self).content() + enc_be16(number),
    ;

    fn write_le_u16(&mut self, number: u16)
        ensures
            final(self).content() == old(self).content() + enc_le16(number),
    ;

    fn write_be_u24(&mut self, number: u32)
        ensures
            final(self).content() == old(self).content() + enc_be24(number),
    ;

    fn write_le_u24(&mut self, number: u32)
        ensures
            final(self).content() == old(self).content() + enc_le24(number),
    ;

    fn write_be_u32(&mut self, number: u32)
        ensures
            final(self).content() == old(self).content() + enc_be32(number),
    ;

    fn write_le_u32(&mut self, number: u32)
        ensures
            final(self).content() == old(self).content() + enc_le32(number),
    ;

    fn write_be_u64(&mut self, number: u64)
        ensures
            final(self).content() == old(self).content() + enc_be64(number),
    ;

    fn write_le_u64(&mut self, number: u64)
        ensures
            final(self).content() == old(self).content() + enc_le64(number),
    ;
}

impl WriteExtension for Vec<u8> {
    open spec fn content(&self) -> Seq<u8> {
        self@
    }

    fn write_u8(&mut self, number: u8) {
        self.push(number);
        proof {
            assert(self@ =~= old(self)@ + enc_u8(number));
        }
    }

    fn write_be_u16(&mut self, number: u16) {
        self.push((number >> 8u16) as u8);
        self.push(number as u8);
        proof {
            assert(self@ =~= old(self)@ + enc_be16(number));
        }
    }

    fn write_le_u16(&mut self, number: u16) {
        self.push(number as u8);
        self.push((number >> 8u16) as u8);
        proof {
            assert(self@ =~= old(self)@ + enc_le16(number));
        }
    }

    fn write_be_u24(&mut self, number: u32) {
        self.push((number >> 16u32) as u8);
        self.push((number >> 8u32) as u8);
        self.push(number as u8);
        proof {
            assert(self@ =~= old(self)@ + enc_be24(number));
        }
    }

    fn write_le_u24(&mut self, number: u32) {
        self.push(number as u8);
        self.push((number >> 8u32) as u8);
        self.push((number >> 16u32) as u8);
        proof {
            assert(self@ =~= old(self)@ + enc_le24(number));
        }
    }

    fn write_be_u32(&mut self, number: u32) {
        self.push((number >> 24u32) as u8);
        self.push((number >> 16u32) as u8);
        self.push((number >> 8u32) as u8);
        self.push(number as u8);
        proof {
            assert(self@ =~= old(self)@ + enc_be32(number));
        }
    }

    fn write_le_u32(&mut self, number: u32) {
        self.push(number as u8);
        self.push((number >> 8u32) as u8);
        self.push((number >> 16u32) as u8);
        self.push((number >> 24u32) as u8);
        proof {
            assert(self@ =~= old(self)@ + enc_le32(number));
        }
    }

    fn write_be_u64(&mut self, number: u64) {
        self.push((number >> 56u64) as u8);
        self.push((number >> 48u64) as u8);
        self.push((number >> 40u64) as u8);
        self.push((number >> 32u64) as u8);
        self.push((number >> 24u64) as u8);
        self.push((number >> 16u64) as u8);
        self.push((number >> 8u64) as u8);
        self.push(number as u8);
        proof {
            assert(self@ =~= old(self)@ + enc_be64(number));
        }
    }

    fn write_le_u64(&mut self, number: u64) {
        self.push(number as u8);
        self.push((number >> 8u64) as u8);
        self.push((number >> 16u64) as u8);
        self.push((number >> 24u64) as u8);
        self.push((number >> 32u64) as u8);
        self.push((number >> 40u64) as u8);
        self.push((number >> 48u64) as u8);
        self.push((number >> 56u64) as u8);
        proof {
            assert(self@ =~= old(self)@ + enc_le64(number));
        }
    }
}

/// Compares two strings by their UTF-8 bytes.
pub fn str_eq(a: &str, b: &str) -> (r: bool)
    ensures
        r == (a@ == b@),
{
    let ab: &[u8] = a.as_bytes();
    let bb: &[u8] = b.as_bytes();
    proof {
        vstd::utf8::encode_utf8_decode_utf8(a@);
        vstd::utf8::encode_utf8_decode_utf8(b@);
    }
    if ab.len() != bb.len() {
        return false;
    }
    let mut i: usize = 0;
    while i < ab.len()
        invariant
            i <= ab@.len() == bb@.len(),
            ab@ == vstd::utf8::encode_utf8(a@),
            bb@ == vstd::utf8::encode_utf8(b@),
            vstd::utf8::decode_utf8(vstd::utf8::encode_utf8(a@)) == a@,
            vstd::utf8::decode_utf8(vstd::utf8::encode_utf8(b@)) == b@,
            forall|k: int| 0 <= k < i ==> ab@[k] == bb@[k],
        decreases ab@.len() - i,
    {
        if ab[i] != bb[i] {
            return false;
        }
        i += 1;
    }
    proof {
        assert(ab@ =~= bb@);
    }
    true
}

} // verus!

//! CRC-32/ISO-HDLC: generator 0x04C11DB7, reflected input and output, initial
//! register 0xFFFFFFFF, final XOR 0xFFFFFFFF.

use vstd::prelude::*;

verus! {

/// The generator polynomial, x^32 left out: bit `i` is the coefficient of x^i.
pub const POLYNOMIAL: u32 = 0x04C1_1DB7;

/// The generator polynomial with its bits in reflected order.
pub const POLYNOMIAL_REFLECTED: u32 = 0xEDB8_8320;

/// The register before any byte is fed, and the mask applied to it at the end.
pub const ALL_ONES: u32 = 0xFFFF_FFFF;

/// One step of the bit-serial division: the register moves right by one bit, and the
/// generator is subtracted when the bit that left was set.
pub open spec fn shift_bit(reg: u32) -> u32 {
    if reg & 1 == 1 {
        (reg >> 1) ^ POLYNOMIAL_REFLECTED
    } else {
        reg >> 1
    }
}

/// `n` steps of the division.
pub open spec fn shift_bits(reg: u32, n: nat) -> u32
    decreases n,
{
    if n == 0 {
        reg
    } else {
        shift_bit(shift_bits(reg, (n - 1) as nat))
    }
}

/// The register after one more byte of the message.
pub open spec fn feed_byte(reg: u32, byte: u8) -> u32 {
    shift_bits(reg ^ (byte as u32), 8)
}

/// The register after the bytes of `bytes`, taken in order.
pub open spec fn feed(reg: u32, bytes: Seq<u8>) -> u32
    decreases bytes.len(),
{
    if bytes.len() == 0 {
        reg
    } else {
        feed_byte(feed(reg, bytes.drop_last()), bytes.last())
    }
}

/// The CRC-32/ISO-HDLC checksum of a message.
pub open spec fn crc32(bytes: Seq<u8>) -> u32 {
    feed(ALL_ONES, bytes) ^ ALL_ONES
}

/// Bit `i` of `value`.
pub open spec fn bit(value: u32, i: u32) -> bool {
    (value >> i) & 1 == 1
}

/// The reflected generator is the generator read from the other end.
pub proof fn lemma_polynomial_reflected()
    ensures
        forall|i: u32|
            i < 32 ==> bit(POLYNOMIAL_REFLECTED, i) == bit(POLYNOMIAL, (31 - i) as u32),
{
    assert(forall|i: u32|
        i < 32 ==> (((0xEDB8_8320u32 >> i) & 1) == 1) == (((0x04C1_1DB7u32 >> ((31 - i) as u32)) & 1)
            == 1)) by (bit_vector);
}

/// A step of the division loses nothing: the generator's top bit is set, so the bit
/// that left the register can be read off the result.
pub proof fn lemma_shift_bit_injective(a: u32, b: u32)
    by (bit_vector)
    requires
        shift_bit(a) == shift_bit(b),
    ensures
        a == b,
{
}

/// Any number of steps loses nothing.
pub proof fn lemma_shift_bits_injective(a: u32, b: u32, n: nat)
    requires
        shift_bits(a, n) == shift_bits(b, n),
    ensures
        a == b,
    decreases n,
{
    if n > 0 {
        lemma_shift_bit_injective(shift_bits(a, (n - 1) as nat), shift_bits(b, (n - 1) as nat));
        lemma_shift_bits_injective(a, b, (n - 1) as nat);
    }
}

/// Feeding one byte takes different registers to different registers, and takes one
/// register to different registers for different bytes.
pub proof fn lemma_feed_byte_injective(reg_a: u32, byte_a: u8, reg_b: u32, byte_b: u8)
    requires
        feed_byte(reg_a, byte_a) == feed_byte(reg_b, byte_b),
    ensures
        byte_a == byte_b ==> reg_a == reg_b,
        reg_a == reg_b ==> byte_a == byte_b,
{
    lemma_shift_bits_injective(reg_a ^ (byte_a as u32), reg_b ^ (byte_b as u32), 8);
    assert((reg_a ^ (byte_a as u32)) == (reg_b ^ (byte_b as u32)) && byte_a == byte_b ==> reg_a
        == reg_b) by (bit_vector);
    assert((reg_a ^ (byte_a as u32)) == (reg_b ^ (byte_b as u32)) && reg_a == reg_b ==> byte_a
        == byte_b) by (bit_vector);
}

/// Two messages of one length that differ in exactly one byte leave different
/// registers behind.
pub proof fn lemma_feed_detects_byte(reg: u32, a: Seq<u8>, b: Seq<u8>, at: int)
    requires
        a.len() == b.len(),
        0 <= at < a.len(),
        a[at] != b[at],
        forall|i: int| 0 <= i < a.len() && i != at ==> a[i] == b[i],
    ensures
        feed(reg, a) != feed(reg, b),
    decreases a.len(),
{
    if at == a.len() - 1 {
        assert(a.drop_last() =~= b.drop_last());
    } else {
        lemma_feed_detects_byte(reg, a.drop_last(), b.drop_last(), at);
    }
    if feed(reg, a) == feed(reg, b) {
        lemma_feed_byte_injective(
            feed(reg, a.drop_last()),
            a.last(),
            feed(reg, b.drop_last()),
            b.last(),
        );
    }
}

/// The checksum detects every change that is confined to a single byte, and so every
/// single flipped bit.
pub proof fn lemma_crc32_detects_byte(a: Seq<u8>, b: Seq<u8>, at: int)
    requires
        a.len() == b.len(),
        0 <= at < a.len(),
        a[at] != b[at],
        forall|i: int| 0 <= i < a.len() && i != at ==> a[i] == b[i],
    ensures
        crc32(a) != crc32(b),
{
    lemma_feed_detects_byte(ALL_ONES, a, b, at);
    let x = feed(ALL_ONES, a);
    let y = feed(ALL_ONES, b);
    assert(x != y ==> (x ^ 0xFFFF_FFFFu32) != (y ^ 0xFFFF_FFFFu32)) by (bit_vector);
}

fn step_byte(reg: u32, byte: u8) -> (next: u32)
    ensures
        next == feed_byte(reg, byte),
{
    let mut cur: u32 = reg ^ (byte as u32);
    let mut k: u8 = 0;
    while k < 8
        invariant
            k <= 8,
            cur == shift_bits(reg ^ (byte as u32), k as nat),
        decreases 8 - k,
    {
        cur = if cur & 1 == 1 {
            (cur >> 1) ^ POLYNOMIAL_REFLECTED
        } else {
            cur >> 1
        };
        k += 1;
    }
    cur
}

/// Computes the checksum of `bytes`.
pub fn checksum(bytes: &[u8]) -> (crc: u32)
    ensures
        crc == crc32(bytes@),
{
    let mut reg: u32 = ALL_ONES;
    let mut i: usize = 0;
    while i < bytes.len()
        invariant
            i <= bytes.len(),
            reg == feed(ALL_ONES, bytes@.take(i as int)),
        decreases bytes.len() - i,
    {
        proof {
            assert(bytes@.take(i + 1).drop_last() == bytes@.take(i as int));
        }
        reg = step_byte(reg, bytes[i]);
        i += 1;
    }
    proof {
        assert(bytes@.take(i as int) == bytes@);
    }
    reg ^ ALL_ONES
}

} // verus!

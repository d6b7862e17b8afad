//! Big-endian integers in byte strings.

use vstd::prelude::*;

verus! {

/// The number that `bytes` spell in base 256, most significant byte first.
pub open spec fn be_value(bytes: Seq<u8>) -> nat
    decreases bytes.len(),
{
    if bytes.len() == 0 {
        0
    } else {
        be_value(bytes.drop_last()) * 256 + bytes.last() as nat
    }
}

/// 256 to the power `n`.
pub open spec fn radix_pow(n: nat) -> nat
    decreases n,
{
    if n == 0 {
        1
    } else {
        256 * radix_pow((n - 1) as nat)
    }
}

/// A string of `n` bytes spells a number below 256 to the power `n`.
pub proof fn lemma_be_value_bound(bytes: Seq<u8>)
    ensures
        be_value(bytes) < radix_pow(bytes.len()),
    decreases bytes.len(),
{
    if bytes.len() > 0 {
        lemma_be_value_bound(bytes.drop_last());
    }
}

/// The powers of 256 that fit the machine's integers.
pub proof fn lemma_radix_pow_values()
    ensures
        radix_pow(0) == 1,
        radix_pow(1) == 0x100,
        radix_pow(2) == 0x1_0000,
        radix_pow(3) == 0x100_0000,
        radix_pow(4) == 0x1_0000_0000,
        radix_pow(5) == 0x100_0000_0000,
        radix_pow(6) == 0x1_0000_0000_0000,
        radix_pow(7) == 0x100_0000_0000_0000,
        radix_pow(8) == 0x1_0000_0000_0000_0000,
{
    reveal_with_fuel(radix_pow, 9);
}

/// Two byte strings of one length that spell the same number are equal.
pub proof fn lemma_be_value_injective(a: Seq<u8>, b: Seq<u8>)
    requires
        a.len() == b.len(),
        be_value(a) == be_value(b),
    ensures
        a == b,
    decreases a.len(),
{
    if a.len() > 0 {
        let x: int = be_value(a.drop_last()) as int;
        let y: int = be_value(b.drop_last()) as int;
        let p: int = a.last() as int;
        let q: int = b.last() as int;
        assert(x * 256 + p == y * 256 + q);
        assert(x == y && p == q);
        lemma_be_value_injective(a.drop_last(), b.drop_last());
        assert(a =~= a.drop_last().push(a.last()));
        assert(b =~= b.drop_last().push(b.last()));
    } else {
        assert(a =~= b);
    }
}

fn read_be(bytes: &[u8], at: usize, width: usize) -> (value: u64)
    requires
        width <= 8,
        at + width <= bytes@.len(),
    ensures
        value == be_value(bytes@.subrange(at as int, at + width)),
{
    let len: usize = bytes.len();
    let mut acc: u64 = 0;
    let mut k: usize = 0;
    while k < width
        invariant
            k <= width <= 8,
            at + width <= len == bytes@.len(),
            acc == be_value(bytes@.subrange(at as int, at + k)),
        decreases width - k,
    {
        proof {
            let done = bytes@.subrange(at as int, at + k);
            let next = bytes@.subrange(at as int, at + k + 1);
            assert(next.drop_last() == done);
            assert(next.last() == bytes@[at + k]);
            lemma_be_value_bound(done);
            lemma_be_value_bound(next);
            lemma_radix_pow_values();
            reveal_with_fuel(radix_pow, 9);
        }
        acc = acc * 256 + bytes[at + k] as u64;
        k += 1;
    }
    acc
}

/// Reads the 16-bit big-endian integer at offset `at`.
pub fn read_u16_be(bytes: &[u8], at: usize) -> (value: u16)
    requires
        at + 2 <= bytes@.len(),
    ensures
        value == be_value(bytes@.subrange(at as int, at + 2)),
{
    proof {
        lemma_be_value_bound(bytes@.subrange(at as int, at + 2));
        lemma_radix_pow_values();
    }
    read_be(bytes, at, 2) as u16
}

/// Reads the 32-bit big-endian integer at offset `at`.
pub fn read_u32_be(bytes: &[u8], at: usize) -> (value: u32)
    requires
        at + 4 <= bytes@.len(),
    ensures
        value == be_value(bytes@.subrange(at as int, at + 4)),
{
    proof {
        lemma_be_value_bound(bytes@.subrange(at as int, at + 4));
        lemma_radix_pow_values();
    }
    read_be(bytes, at, 4) as u32
}

/// Reads the 64-bit big-endian integer at offset `at`.
pub fn read_u64_be(bytes: &[u8], at: usize) -> (value: u64)
    requires
        at + 8 <= bytes@.len(),
    ensures
        value == be_value(bytes@.subrange(at as int, at + 8)),
{
    read_be(bytes, at, 8)
}

/// Overwrites `buf` with zeros.
pub fn wipe(buf: &mut [u8])
    ensures
        final(buf)@.len() == old(buf)@.len(),
        forall|i: int| 0 <= i < final(buf)@.len() ==> final(buf)@[i] == 0,
{
    let len: usize = buf.len();
    let mut i: usize = 0;
    while i < len
        invariant
            i <= len == buf@.len(),
            forall|j: int| 0 <= j < i ==> buf@[j] == 0,
        decreases len - i,
    {
        buf[i] = 0;
        i += 1;
    }
}

} // verus!

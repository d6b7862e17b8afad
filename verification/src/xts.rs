//! AES-256 in XTS mode over data units, each with its own tweak index.

use crate::arith::{lemma_quotient_at_least, lemma_quotient_remainder};
use crate::bytes::wipe;
use aes::cipher::generic_array::GenericArray;
use aes::cipher::KeyInit;
use aes::Aes256;
use vstd::prelude::*;
use xts_mode::{get_tweak_default, Xts128};

verus! {

/// The smallest data unit: one block of the cipher.
pub const MIN_UNIT_LEN: usize = 16;

/// The ciphertext of one data unit under AES-256-XTS: `key1` encrypts the blocks,
/// `key2` encrypts the little-endian encoding of `index` into the unit's tweak.
pub uninterp spec fn xts_aes256_encrypt(
    key1: Seq<u8>,
    key2: Seq<u8>,
    unit: Seq<u8>,
    index: u64,
) -> Seq<u8>;

/// The plaintext of one data unit under AES-256-XTS, with the keys and the index as
/// in [`xts_aes256_encrypt`].
pub uninterp spec fn xts_aes256_decrypt(
    key1: Seq<u8>,
    key2: Seq<u8>,
    unit: Seq<u8>,
    index: u64,
) -> Seq<u8>;

/// Calls `Xts128::<Aes256>::encrypt_area` on `buf[start..end]` as a single data unit,
/// with `get_tweak_default` and ciphers built by `Aes256::new` from the two keys.
///
/// The contract names the bytes that the call leaves in the range and claims that
/// the rest of the buffer is untouched, that the range keeps its length, and that
/// XTS decryption under the same keys and index undoes the encryption.
#[verifier::external_body]
fn xts_encrypt_range(
    key1: &[u8; 32],
    key2: &[u8; 32],
    buf: &mut [u8],
    start: usize,
    end: usize,
    unit_len: usize,
    index: u64,
)
    requires
        start + unit_len == end,
        end <= old(buf)@.len(),
        unit_len >= MIN_UNIT_LEN,
    ensures
        final(buf)@ == old(buf)@.subrange(0, start as int) + xts_aes256_encrypt(
            key1@,
            key2@,
            old(buf)@.subrange(start as int, end as int),
            index,
        ) + old(buf)@.subrange(end as int, old(buf)@.len() as int),
        final(buf)@.len() == old(buf)@.len(),
        xts_aes256_decrypt(
            key1@,
            key2@,
            xts_aes256_encrypt(key1@, key2@, old(buf)@.subrange(start as int, end as int), index),
            index,
        ) == old(buf)@.subrange(start as int, end as int),
{
    let cipher_1 = Aes256::new(GenericArray::from_slice(key1));
    let cipher_2 = Aes256::new(GenericArray::from_slice(key2));
    let xts = Xts128::<Aes256>::new(cipher_1, cipher_2);
    xts.encrypt_area(&mut buf[start..end], unit_len, index as u128, get_tweak_default);
}

/// Calls `Xts128::<Aes256>::decrypt_area` on `buf[start..end]` as a single data unit,
/// with `get_tweak_default` and ciphers built by `Aes256::new` from the two keys.
///
/// The contract names the bytes that the call leaves in the range and claims that
/// the rest of the buffer is untouched and that the range keeps its length.
#[verifier::external_body]
fn xts_decrypt_range(
    key1: &[u8; 32],
    key2: &[u8; 32],
    buf: &mut [u8],
    start: usize,
    end: usize,
    unit_len: usize,
    index: u64,
)
    requires
        start + unit_len == end,
        end <= old(buf)@.len(),
        unit_len >= MIN_UNIT_LEN,
    ensures
        final(buf)@ == old(buf)@.subrange(0, start as int) + xts_aes256_decrypt(
            key1@,
            key2@,
            old(buf)@.subrange(start as int, end as int),
            index,
        ) + old(buf)@.subrange(end as int, old(buf)@.len() as int),
        final(buf)@.len() == old(buf)@.len(),
{
    let cipher_1 = Aes256::new(GenericArray::from_slice(key1));
    let cipher_2 = Aes256::new(GenericArray::from_slice(key2));
    let xts = Xts128::<Aes256>::new(cipher_1, cipher_2);
    xts.decrypt_area(&mut buf[start..end], unit_len, index as u128, get_tweak_default);
}

/// The two AES-256 keys of an XTS engine. The engine keeps no state between calls.
pub struct XtsEngine {
    key1: [u8; 32],
    key2: [u8; 32],
}

impl Drop for XtsEngine {
    /// Overwrites both keys with zeros.
    fn drop(&mut self)
        opens_invariants none
        no_unwind
    {
        let mut i: usize = 0;
        while i < 32
            invariant
                i <= 32,
            decreases 32 - i,
        {
            self.key1[i] = 0;
            self.key2[i] = 0;
            i += 1;
        }
    }
}

impl XtsEngine {
    /// The key that encrypts the blocks.
    pub closed spec fn key1(&self) -> Seq<u8> {
        self.key1@
    }

    /// The key that encrypts the tweak.
    pub closed spec fn key2(&self) -> Seq<u8> {
        self.key2@
    }

    /// The ciphertext of one data unit under this engine's keys.
    pub open spec fn encrypted(&self, unit: Seq<u8>, index: u64) -> Seq<u8> {
        xts_aes256_encrypt(self.key1(), self.key2(), unit, index)
    }

    /// The plaintext of one data unit under this engine's keys.
    pub open spec fn decrypted(&self, unit: Seq<u8>, index: u64) -> Seq<u8> {
        xts_aes256_decrypt(self.key1(), self.key2(), unit, index)
    }

    /// Whether an area of `len` bytes splits into data units of `unit_len` bytes that
    /// XTS can process, numbered from `first_index` within 64 bits: the units hold at
    /// least one cipher block, and so does the shorter unit at the end, if there is one.
    pub open spec fn area_fits(len: int, unit_len: int, first_index: int) -> bool {
        &&& unit_len >= MIN_UNIT_LEN
        &&& len % unit_len == 0 || len % unit_len >= MIN_UNIT_LEN
        &&& 0 <= first_index
        &&& len <= 0 || first_index + (len - 1) / unit_len <= u64::MAX
    }

    /// The plaintext of an area: its data units decrypted one by one, the first with
    /// `first_index` and each next one with the index after.
    pub open spec fn decrypted_area(&self, area: Seq<u8>, unit_len: int, first_index: int) -> Seq<
        u8,
    >
        decreases area.len(),
    {
        if area.len() == 0 || unit_len <= 0 {
            area
        } else if area.len() <= unit_len {
            self.decrypted(area, first_index as u64)
        } else {
            self.decrypted(area.take(unit_len), first_index as u64) + self.decrypted_area(
                area.skip(unit_len),
                unit_len,
                first_index + 1,
            )
        }
    }

    /// The ciphertext of an area: its data units encrypted one by one, the first with
    /// `first_index` and each next one with the index after.
    pub open spec fn encrypted_area(&self, area: Seq<u8>, unit_len: int, first_index: int) -> Seq<
        u8,
    >
        decreases area.len(),
    {
        if area.len() == 0 || unit_len <= 0 {
            area
        } else if area.len() <= unit_len {
            self.encrypted(area, first_index as u64)
        } else {
            self.encrypted(area.take(unit_len), first_index as u64) + self.encrypted_area(
                area.skip(unit_len),
                unit_len,
                first_index + 1,
            )
        }
    }

    /// An engine with the given keys.
    pub fn new(key1: [u8; 32], key2: [u8; 32]) -> (engine: Self)
        ensures
            engine.key1() == key1@,
            engine.key2() == key2@,
    {
        XtsEngine { key1, key2 }
    }

    /// An engine whose keys are the two halves of 64 bytes of key material: bytes
    /// 0 to 31 encrypt the blocks, bytes 32 to 63 the tweak.
    pub fn from_key_material(material: &[u8; 64]) -> (engine: Self)
        ensures
            engine.key1() == material@.subrange(0, 32),
            engine.key2() == material@.subrange(32, 64),
    {
        let mut key1 = [0u8; 32];
        let mut key2 = [0u8; 32];
        let mut i: usize = 0;
        while i < 32
            invariant
                i <= 32,
                forall|j: int| 0 <= j < i ==> key1@[j] == material@[j],
                forall|j: int| 0 <= j < i ==> key2@[j] == material@[32 + j],
            decreases 32 - i,
        {
            key1[i] = material[i];
            key2[i] = material[32 + i];
            i += 1;
        }
        assert(key1@ =~= material@.subrange(0, 32));
        assert(key2@ =~= material@.subrange(32, 64));
        XtsEngine { key1, key2 }
    }

    /// The plaintext of whole data units followed by one more unit is the plaintext
    /// of the former followed by that of the latter under the index that comes next.
    pub proof fn lemma_decrypted_area_append(
        &self,
        head: Seq<u8>,
        unit: Seq<u8>,
        unit_len: int,
        first_index: int,
        units: int,
    )
        requires
            0 <= units,
            head.len() == units * unit_len,
            0 < unit.len() <= unit_len,
        ensures
            self.decrypted_area(head + unit, unit_len, first_index) == self.decrypted_area(
                head,
                unit_len,
                first_index,
            ) + self.decrypted(unit, (first_index + units) as u64),
        decreases units,
    {
        if units == 0 {
            assert(head.len() == 0) by (nonlinear_arith)
                requires
                    head.len() == units * unit_len,
                    units == 0,
            ;
            assert(head + unit =~= unit);
            assert(self.decrypted_area(head, unit_len, first_index) =~= Seq::<u8>::empty());
            assert(Seq::<u8>::empty() + self.decrypted(unit, first_index as u64)
                =~= self.decrypted(unit, first_index as u64));
        } else {
            let whole = head + unit;
            let rest = head.skip(unit_len);
            assert(head.len() == (units - 1) * unit_len + unit_len) by (nonlinear_arith)
                requires
                    head.len() == units * unit_len,
            ;
            assert(rest.len() == (units - 1) * unit_len);
            assert(units >= 2 ==> (units - 1) * unit_len >= unit_len) by (nonlinear_arith)
                requires
                    unit_len > 0,
            ;
            assert(whole.take(unit_len) =~= head.take(unit_len));
            assert(whole.skip(unit_len) =~= rest + unit);
            self.lemma_decrypted_area_append(
                rest,
                unit,
                unit_len,
                first_index + 1,
                units - 1,
            );
            if units == 1 {
                assert(head.len() == unit_len) by (nonlinear_arith)
                    requires
                        head.len() == units * unit_len,
                        units == 1,
                ;
                assert(head.take(unit_len) =~= head);
                assert(self.decrypted_area(rest, unit_len, first_index + 1) =~= Seq::<u8>::empty());
            }
            assert(self.decrypted_area(whole, unit_len, first_index) =~= self.decrypted_area(
                head,
                unit_len,
                first_index,
            ) + self.decrypted(unit, (first_index + units) as u64));
        }
    }

    /// Decrypts `buf[start..end]` in place as one data unit with tweak index `index`.
    /// The rest of the buffer stays as it is.
    pub fn decrypt_range(&self, buf: &mut [u8], start: usize, end: usize, index: u64)
        requires
            start + MIN_UNIT_LEN <= end <= old(buf)@.len(),
        ensures
            final(buf)@ == old(buf)@.subrange(0, start as int) + self.decrypted(
                old(buf)@.subrange(start as int, end as int),
                index,
            ) + old(buf)@.subrange(end as int, old(buf)@.len() as int),
            final(buf)@.len() == old(buf)@.len(),
    {
        xts_decrypt_range(&self.key1, &self.key2, buf, start, end, end - start, index);
    }

    /// Encrypts `area` in place: consecutive data units of `unit_len` bytes, the first
    /// with tweak index `first_index`, each next one with the index after. A shorter
    /// unit at the end is encrypted as a unit of its own.
    ///
    /// Decrypting the result with the same unit length and first index gives the
    /// input back.
    pub fn encrypt_area(&self, area: &mut [u8], unit_len: usize, first_index: u64)
        requires
            Self::area_fits(old(area)@.len() as int, unit_len as int, first_index as int),
        ensures
            final(area)@ == self.encrypted_area(old(area)@, unit_len as int, first_index as int),
            final(area)@.len() == old(area)@.len(),
            self.decrypted_area(final(area)@, unit_len as int, first_index as int) == old(area)@,
    {
        let len: usize = area.len();
        let ghost before = area@;
        let ghost mut units: int = 0;
        let mut start: usize = 0;
        let mut index: u64 = first_index;
        proof {
            assert(area@.subrange(0, 0) + self.encrypted_area(
                before.subrange(0, len as int),
                unit_len as int,
                first_index as int,
            ) =~= self.encrypted_area(before, unit_len as int, first_index as int)) by {
                assert(before.subrange(0, len as int) =~= before);
            }
            assert(self.decrypted_area(area@.subrange(0, 0), unit_len as int, first_index as int)
                =~= before.subrange(0, 0));
        }
        while start < len
            invariant
                start <= len == area@.len() == before.len(),
                0 <= units,
                Self::area_fits(before.len() as int, unit_len as int, first_index as int),
                start < len ==> start == units * unit_len && index == first_index + units,
                area@.subrange(start as int, len as int) == before.subrange(
                    start as int,
                    len as int,
                ),
                area@.subrange(0, start as int) + self.encrypted_area(
                    before.subrange(start as int, len as int),
                    unit_len as int,
                    first_index + units,
                ) == self.encrypted_area(before, unit_len as int, first_index as int),
                start < len ==> self.decrypted_area(
                    area@.subrange(0, start as int),
                    unit_len as int,
                    first_index as int,
                ) == before.subrange(0, start as int),
                start == len ==> self.decrypted_area(area@, unit_len as int, first_index as int)
                    == before,
            decreases len - start,
        {
            let remaining: usize = len - start;
            let this: usize = if remaining < unit_len {
                remaining
            } else {
                unit_len
            };
            let end: usize = start + this;
            let ghost entry = area@;
            let ghost tail = before.subrange(start as int, len as int);
            let ghost unit = before.subrange(start as int, end as int);
            proof {
                if remaining < unit_len {
                    lemma_quotient_remainder(units, unit_len as int, remaining as int);
                }
                assert forall|i: int| start <= i < len implies entry[i] == before[i] by {
                    assert(entry.subrange(start as int, len as int)[i - start] == tail[i - start]);
                }
                assert(entry.subrange(start as int, end as int) =~= unit);
            }
            xts_encrypt_range(&self.key1, &self.key2, area, start, end, this, index);
            proof {
                let cipher = self.encrypted(unit, index);
                assert(area@.subrange(0, end as int) =~= entry.subrange(0, start as int) + cipher);
                assert(area@.subrange(end as int, len as int) =~= before.subrange(
                    end as int,
                    len as int,
                ));
                assert(tail.take(this as int) =~= unit);
                assert(tail.skip(this as int) =~= before.subrange(end as int, len as int));
                if end == len {
                    assert(tail =~= unit);
                    assert(before.subrange(end as int, len as int) =~= Seq::<u8>::empty());
                    assert(self.encrypted_area(
                        before.subrange(end as int, len as int),
                        unit_len as int,
                        first_index + units + 1,
                    ) =~= Seq::<u8>::empty());
                }
                assert(area@.subrange(0, end as int) + self.encrypted_area(
                    before.subrange(end as int, len as int),
                    unit_len as int,
                    first_index + units + 1,
                ) =~= self.encrypted_area(before, unit_len as int, first_index as int));
                self.lemma_decrypted_area_append(
                    entry.subrange(0, start as int),
                    cipher,
                    unit_len as int,
                    first_index as int,
                    units,
                );
                assert(before.subrange(0, start as int) + unit =~= before.subrange(
                    0,
                    end as int,
                ));
                if end == len {
                    assert(area@.subrange(0, end as int) =~= area@);
                    assert(before.subrange(0, end as int) =~= before);
                } else {
                    assert((units + 1) * unit_len == units * unit_len + unit_len)
                        by (nonlinear_arith);
                    lemma_quotient_at_least(len - 1, unit_len as int, units + 1);
                }
                units = units + 1;
            }
            start = end;
            if start < len {
                index = index + 1;
            }
        }
    }

    /// Decrypts `area` in place: consecutive data units of `unit_len` bytes, the first
    /// with tweak index `first_index`, each next one with the index after. A shorter
    /// unit at the end is decrypted as a unit of its own.
    pub fn decrypt_area(&self, area: &mut [u8], unit_len: usize, first_index: u64)
        requires
            Self::area_fits(old(area)@.len() as int, unit_len as int, first_index as int),
        ensures
            final(area)@ == self.decrypted_area(old(area)@, unit_len as int, first_index as int),
            final(area)@.len() == old(area)@.len(),
    {
        let len: usize = area.len();
        let ghost before = area@;
        let ghost mut units: int = 0;
        let mut start: usize = 0;
        let mut index: u64 = first_index;
        proof {
            assert(area@.subrange(0, 0) + self.decrypted_area(
                before.subrange(0, len as int),
                unit_len as int,
                first_index as int,
            ) =~= self.decrypted_area(before, unit_len as int, first_index as int)) by {
                assert(before.subrange(0, len as int) =~= before);
            }
        }
        while start < len
            invariant
                start <= len == area@.len() == before.len(),
                0 <= units,
                Self::area_fits(before.len() as int, unit_len as int, first_index as int),
                start < len ==> start == units * unit_len && index == first_index + units,
                area@.subrange(start as int, len as int) == before.subrange(
                    start as int,
                    len as int,
                ),
                area@.subrange(0, start as int) + self.decrypted_area(
                    before.subrange(start as int, len as int),
                    unit_len as int,
                    first_index + units,
                ) == self.decrypted_area(before, unit_len as int, first_index as int),
            decreases len - start,
        {
            let remaining: usize = len - start;
            let this: usize = if remaining < unit_len {
                remaining
            } else {
                unit_len
            };
            let end: usize = start + this;
            let ghost entry = area@;
            let ghost tail = before.subrange(start as int, len as int);
            let ghost unit = before.subrange(start as int, end as int);
            proof {
                if remaining < unit_len {
                    lemma_quotient_remainder(units, unit_len as int, remaining as int);
                }
                assert forall|i: int| start <= i < len implies entry[i] == before[i] by {
                    assert(entry.subrange(start as int, len as int)[i - start] == tail[i - start]);
                }
                assert(entry.subrange(start as int, end as int) =~= unit);
            }
            xts_decrypt_range(&self.key1, &self.key2, area, start, end, this, index);
            proof {
                let plain = self.decrypted(unit, index);
                assert(area@.subrange(0, end as int) =~= entry.subrange(0, start as int) + plain);
                assert(area@.subrange(end as int, len as int) =~= before.subrange(
                    end as int,
                    len as int,
                ));
                assert(tail.take(this as int) =~= unit);
                assert(tail.skip(this as int) =~= before.subrange(end as int, len as int));
                if end == len {
                    assert(tail =~= unit);
                    assert(self.decrypted_area(
                        before.subrange(end as int, len as int),
                        unit_len as int,
                        first_index + units + 1,
                    ) =~= Seq::<u8>::empty());
                } else {
                    assert((units + 1) * unit_len == units * unit_len + unit_len)
                        by (nonlinear_arith);
                    lemma_quotient_at_least(len - 1, unit_len as int, units + 1);
                }
                assert(area@.subrange(0, end as int) + self.decrypted_area(
                    before.subrange(end as int, len as int),
                    unit_len as int,
                    first_index + units + 1,
                ) =~= self.decrypted_area(before, unit_len as int, first_index as int));
                units = units + 1;
            }
            start = end;
            if start < len {
                index = index + 1;
            }
        }
        proof {
            assert(area@.subrange(0, len as int) =~= area@);
            assert(self.decrypted_area(
                before.subrange(len as int, len as int),
                unit_len as int,
                first_index + units,
            ) =~= Seq::<u8>::empty());
        }
    }

    /// Overwrites both keys with zeros.
    pub fn wipe(&mut self)
        ensures
            final(self).key1() == Seq::new(32, |i: int| 0u8),
            final(self).key2() == Seq::new(32, |i: int| 0u8),
    {
        wipe(&mut self.key1);
        wipe(&mut self.key2);
        proof {
            assert(self.key1@ =~= Seq::new(32, |i: int| 0u8));
            assert(self.key2@ =~= Seq::new(32, |i: int| 0u8));
        }
    }

    /// Encrypts `unit` in place as one data unit with tweak index `index`.
    ///
    /// Decrypting the result with the same index gives the input back.
    pub fn encrypt_unit(&self, unit: &mut [u8], index: u64)
        requires
            old(unit)@.len() >= MIN_UNIT_LEN,
        ensures
            final(unit)@ == self.encrypted(old(unit)@, index),
            final(unit)@.len() == old(unit)@.len(),
            self.decrypted(final(unit)@, index) == old(unit)@,
    {
        let len: usize = unit.len();
        let ghost before = unit@;
        xts_encrypt_range(&self.key1, &self.key2, unit, 0, len, len, index);
        proof {
            assert(before.subrange(0, len as int) =~= before);
            assert(unit@ =~= self.encrypted(before, index));
        }
    }

    /// Decrypts `unit` in place as one data unit with tweak index `index`.
    pub fn decrypt_unit(&self, unit: &mut [u8], index: u64)
        requires
            old(unit)@.len() >= MIN_UNIT_LEN,
        ensures
            final(unit)@ == self.decrypted(old(unit)@, index),
            final(unit)@.len() == old(unit)@.len(),
    {
        let len: usize = unit.len();
        let ghost before = unit@;
        xts_decrypt_range(&self.key1, &self.key2, unit, 0, len, len, index);
        proof {
            assert(before.subrange(0, len as int) =~= before);
            assert(unit@ =~= self.decrypted(before, index));
        }
    }
}

} // verus!

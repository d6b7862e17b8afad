//! The 512-byte volume header: decryption, authentication and decoding.
//!
//! | Offset | Size | Field |
//! |--------|------|-------|
//! | 0 | 64 | salt, in the clear |
//! | 64 | 4 | magic, ASCII `VERA` |
//! | 68 | 2 | version |
//! | 70 | 2 | minimum program version |
//! | 72 | 4 | CRC-32 of bytes 256 to 511 |
//! | 76 | 16 | reserved |
//! | 92 | 8 | hidden volume size |
//! | 100 | 8 | volume size |
//! | 108 | 8 | offset of the data area in the backing store |
//! | 116 | 8 | length of the data area |
//! | 124 | 4 | flags |
//! | 128 | 4 | sector size |
//! | 132 | 120 | reserved |
//! | 252 | 4 | CRC-32 of bytes 64 to 251 |
//! | 256 | 64 | master keys |
//! | 320 | 192 | reserved |
//!
//! Integers are big-endian. Everything after the salt is encrypted as a single XTS
//! data unit of 448 bytes with tweak index 0.

use crate::bytes::{
    be_value, lemma_be_value_injective, read_u16_be, read_u32_be, read_u64_be, wipe,
};
use crate::crc32::{checksum, crc32, lemma_crc32_detects_byte};
use crate::error::{Error, HeaderDefect};
use crate::kdf::{derive_key, pbkdf2_hmac_sha512, HEADER_ITERATIONS};
use crate::xts::{xts_aes256_decrypt, XtsEngine, MIN_UNIT_LEN};
use vstd::prelude::*;
use vstd::slice::slice_subrange;

verus! {

/// The length of a header on disk.
pub const HEADER_LEN: usize = 512;

/// The length of the salt that opens a header.
pub const SALT_LEN: usize = 64;

/// The tweak index under which the header is encrypted.
pub const HEADER_TWEAK_INDEX: u64 = 0;

/// The ASCII letters `VERA`.
pub open spec fn magic() -> Seq<u8> {
    seq![0x56u8, 0x45u8, 0x52u8, 0x41u8]
}

/// A decoded header.
#[derive(Debug, PartialEq, Eq)]
pub struct VolumeHeader {
    pub salt: [u8; 64],
    pub version: u16,
    pub minimum_program_version: u16,
    pub master_key_crc: u32,
    pub hidden_volume_size: u64,
    pub volume_size: u64,
    pub master_key_scope_offset: u64,
    pub master_key_scope_size: u64,
    pub flags: u32,
    pub sector_size: u32,
    pub header_checksum: u32,
    pub master_keys: [u8; 64],
}

impl Drop for VolumeHeader {
    /// Overwrites the master keys with zeros.
    fn drop(&mut self)
        opens_invariants none
        no_unwind
    {
        let mut i: usize = 0;
        while i < 64
            invariant
                i <= 64,
            decreases 64 - i,
        {
            self.master_keys[i] = 0;
            i += 1;
        }
    }
}

/// What a header says, as mathematical values.
pub struct HeaderFields {
    pub salt: Seq<u8>,
    pub version: nat,
    pub minimum_program_version: nat,
    pub master_key_crc: nat,
    pub hidden_volume_size: nat,
    pub volume_size: nat,
    pub master_key_scope_offset: nat,
    pub master_key_scope_size: nat,
    pub flags: nat,
    pub sector_size: nat,
    pub header_checksum: nat,
    pub master_keys: Seq<u8>,
}

impl View for VolumeHeader {
    type V = HeaderFields;

    open spec fn view(&self) -> HeaderFields {
        HeaderFields {
            salt: self.salt@,
            version: self.version as nat,
            minimum_program_version: self.minimum_program_version as nat,
            master_key_crc: self.master_key_crc as nat,
            hidden_volume_size: self.hidden_volume_size as nat,
            volume_size: self.volume_size as nat,
            master_key_scope_offset: self.master_key_scope_offset as nat,
            master_key_scope_size: self.master_key_scope_size as nat,
            flags: self.flags as nat,
            sector_size: self.sector_size as nat,
            header_checksum: self.header_checksum as nat,
            master_keys: self.master_keys@,
        }
    }
}

/// The big-endian integer of `width` bytes at offset `at`.
pub open spec fn field(plain: Seq<u8>, at: int, width: int) -> nat {
    be_value(plain.subrange(at, at + width))
}

/// The fields of a decrypted header, each read at its offset.
pub open spec fn decoded(plain: Seq<u8>) -> HeaderFields {
    HeaderFields {
        salt: plain.subrange(0, 64),
        version: field(plain, 68, 2),
        minimum_program_version: field(plain, 70, 2),
        master_key_crc: field(plain, 72, 4),
        hidden_volume_size: field(plain, 92, 8),
        volume_size: field(plain, 100, 8),
        master_key_scope_offset: field(plain, 108, 8),
        master_key_scope_size: field(plain, 116, 8),
        flags: field(plain, 124, 4),
        sector_size: field(plain, 128, 4),
        header_checksum: field(plain, 252, 4),
        master_keys: plain.subrange(256, 320),
    }
}

/// Whether bytes 64 to 67 spell the magic.
pub open spec fn magic_matches(plain: Seq<u8>) -> bool {
    plain.subrange(64, 68) == magic()
}

/// Whether the checksum of bytes 256 to 511 is the one stored at offset 72.
pub open spec fn master_key_crc_matches(plain: Seq<u8>) -> bool {
    crc32(plain.subrange(256, 512)) == field(plain, 72, 4)
}

/// Whether the checksum of bytes 64 to 251 is the one stored at offset 252.
pub open spec fn header_crc_matches(plain: Seq<u8>) -> bool {
    crc32(plain.subrange(64, 252)) == field(plain, 252, 4)
}

/// Whether a decrypted header is authentic: the magic and both checksums match.
pub open spec fn authentic(plain: Seq<u8>) -> bool {
    &&& plain.len() == HEADER_LEN
    &&& magic_matches(plain)
    &&& master_key_crc_matches(plain)
    &&& header_crc_matches(plain)
}

/// What makes the volume that `fields` describe impossible in a backing store of
/// `backing_len` bytes, if anything does. The first defect in the order of
/// [`HeaderDefect`] is the one reported.
pub open spec fn defect_of(fields: HeaderFields, backing_len: nat) -> Option<HeaderDefect> {
    if fields.sector_size < MIN_UNIT_LEN {
        Some(HeaderDefect::SectorSize)
    } else if fields.master_key_scope_size % fields.sector_size != 0 {
        Some(HeaderDefect::ScopeSize)
    } else if fields.master_key_scope_offset + fields.master_key_scope_size > backing_len {
        Some(HeaderDefect::ScopeBounds)
    } else {
        None
    }
}

/// What opening a decrypted header gives: the fields of an authentic header without
/// defect, and otherwise the reason why there are none.
pub open spec fn opened(plain: Seq<u8>, backing_len: nat) -> Result<HeaderFields, Error> {
    if !authentic(plain) {
        Err(Error::InvalidKey)
    } else {
        match defect_of(decoded(plain), backing_len) {
            Some(defect) => Err(Error::InvalidHeader(defect)),
            None => Ok(decoded(plain)),
        }
    }
}

/// A header as stored, with everything after the salt decrypted under the two halves
/// of `key`.
pub open spec fn decrypted_with(raw: Seq<u8>, key: Seq<u8>) -> Seq<u8> {
    raw.subrange(0, 64) + xts_aes256_decrypt(
        key.subrange(0, 32),
        key.subrange(32, 64),
        raw.subrange(64, 512),
        HEADER_TWEAK_INDEX,
    )
}

/// The key that a passphrase derives for a header as stored: the header's first 64
/// bytes are the salt.
pub open spec fn header_key(raw: Seq<u8>, password: Seq<u8>) -> Seq<u8> {
    pbkdf2_hmac_sha512(password, raw.subrange(0, 64), HEADER_ITERATIONS)
}

/// Whether `outcome` is what `expected` says, the header taken by its view.
pub open spec fn agrees(
    outcome: Result<VolumeHeader, Error>,
    expected: Result<HeaderFields, Error>,
) -> bool {
    match outcome {
        Ok(header) => expected == Ok::<HeaderFields, Error>(header@),
        Err(error) => expected == Err::<HeaderFields, Error>(error),
    }
}

/// A decrypted header that differs from an authentic one in a single byte after the
/// salt is not authentic: opening it gives `InvalidKey`, whatever the backing store.
/// A single flipped bit is such a difference.
pub proof fn lemma_corrupt_byte_rejected(plain: Seq<u8>, corrupt: Seq<u8>, at: int)
    requires
        authentic(plain),
        corrupt.len() == plain.len(),
        64 <= at < 512,
        corrupt[at] != plain[at],
        forall|i: int| 0 <= i < 512 && i != at ==> corrupt[i] == plain[i],
    ensures
        !authentic(corrupt),
        forall|backing_len: nat| #[trigger]
            opened(corrupt, backing_len) == Err::<HeaderFields, Error>(Error::InvalidKey),
{
    if at < 252 {
        let a = plain.subrange(64, 252);
        let b = corrupt.subrange(64, 252);
        assert(a[at - 64] == plain[at] && b[at - 64] == corrupt[at]);
        lemma_crc32_detects_byte(a, b, at - 64);
        assert(corrupt.subrange(252, 256) =~= plain.subrange(252, 256));
    } else if at < 256 {
        let a = plain.subrange(252, 256);
        let b = corrupt.subrange(252, 256);
        assert(a[at - 252] == plain[at] && b[at - 252] == corrupt[at]);
        if be_value(a) == be_value(b) {
            lemma_be_value_injective(a, b);
        }
        assert(corrupt.subrange(64, 252) =~= plain.subrange(64, 252));
    } else {
        let a = plain.subrange(256, 512);
        let b = corrupt.subrange(256, 512);
        assert(a[at - 256] == plain[at] && b[at - 256] == corrupt[at]);
        lemma_crc32_detects_byte(a, b, at - 256);
        assert(corrupt.subrange(72, 76) =~= plain.subrange(72, 76));
    }
}

/// A header as stored with the bit `bit` of the byte at `at` flipped.
pub open spec fn with_flipped_bit(raw: Seq<u8>, at: int, bit: u8) -> Seq<u8> {
    raw.update(at, raw[at] ^ (1u8 << bit))
}

/// A stored header whose encrypted fields or master keys have one bit flipped opens
/// to `InvalidKey`, unless what the flipped header decrypts to passes the magic and
/// both checksums again. A flipped bit of the ciphertext changes a whole cipher block
/// of the plaintext, and a checksum of 32 bits cannot tell all such blocks apart.
pub proof fn lemma_flipped_bit_rejected(
    raw: Seq<u8>,
    key: Seq<u8>,
    at: int,
    bit: u8,
    backing_len: nat,
)
    requires
        raw.len() == HEADER_LEN,
        opened(decrypted_with(raw, key), backing_len) is Ok,
        64 <= at < 252 || 256 <= at < 512,
        bit < 8,
        !authentic(decrypted_with(with_flipped_bit(raw, at, bit), key)),
    ensures
        opened(decrypted_with(with_flipped_bit(raw, at, bit), key), backing_len) == Err::<
            HeaderFields,
            Error,
        >(Error::InvalidKey),
{
}

/// Tests the magic and both checksums of a decrypted header. All three tests are
/// made, whatever the first ones find.
pub fn authenticate(plain: &[u8; 512]) -> (ok: bool)
    ensures
        ok == authentic(plain@),
{
    let bytes: &[u8] = plain.as_slice();
    let magic_ok: bool = bytes[64] == 0x56 && bytes[65] == 0x45 && bytes[66] == 0x52 && bytes[67]
        == 0x41;
    let master_key_crc: u32 = checksum(slice_subrange(bytes, 256, 512));
    let stored_master_key_crc: u32 = read_u32_be(bytes, 72);
    let header_crc: u32 = checksum(slice_subrange(bytes, 64, 252));
    let stored_header_crc: u32 = read_u32_be(bytes, 252);
    proof {
        let window = plain@.subrange(64, 68);
        assert(window[0] == plain@[64] && window[1] == plain@[65] && window[2] == plain@[66]
            && window[3] == plain@[67]);
        assert(magic_ok ==> window =~= magic());
        assert(window == magic() ==> magic_ok) by {
            if window == magic() {
                assert(magic()[0] == 0x56 && magic()[1] == 0x45 && magic()[2] == 0x52
                    && magic()[3] == 0x41);
            }
        }
    }
    magic_ok && master_key_crc == stored_master_key_crc && header_crc == stored_header_crc
}

impl VolumeHeader {
    /// Reads the fields of a decrypted header. Nothing is tested.
    pub fn parse(plain: &[u8; 512]) -> (header: VolumeHeader)
        ensures
            header@ == decoded(plain@),
    {
        let bytes: &[u8] = plain.as_slice();
        let mut salt = [0u8; 64];
        let mut master_keys = [0u8; 64];
        let mut i: usize = 0;
        while i < 64
            invariant
                i <= 64,
                bytes@ == plain@,
                forall|j: int| 0 <= j < i ==> salt@[j] == plain@[j],
                forall|j: int| 0 <= j < i ==> master_keys@[j] == plain@[256 + j],
            decreases 64 - i,
        {
            salt[i] = bytes[i];
            master_keys[i] = bytes[256 + i];
            i += 1;
        }
        let header = VolumeHeader {
            salt,
            version: read_u16_be(bytes, 68),
            minimum_program_version: read_u16_be(bytes, 70),
            master_key_crc: read_u32_be(bytes, 72),
            hidden_volume_size: read_u64_be(bytes, 92),
            volume_size: read_u64_be(bytes, 100),
            master_key_scope_offset: read_u64_be(bytes, 108),
            master_key_scope_size: read_u64_be(bytes, 116),
            flags: read_u32_be(bytes, 124),
            sector_size: read_u32_be(bytes, 128),
            header_checksum: read_u32_be(bytes, 252),
            master_keys,
        };
        proof {
            assert(header@.salt =~= plain@.subrange(0, 64));
            assert(header@.master_keys =~= plain@.subrange(256, 320));
        }
        header
    }

    /// Finds what makes the volume impossible in a backing store of `backing_len`
    /// bytes, if anything does.
    pub fn defect(&self, backing_len: u64) -> (found: Option<HeaderDefect>)
        ensures
            found == defect_of(self@, backing_len as nat),
    {
        if self.sector_size < MIN_UNIT_LEN as u32 {
            Some(HeaderDefect::SectorSize)
        } else if self.master_key_scope_size % (self.sector_size as u64) != 0 {
            Some(HeaderDefect::ScopeSize)
        } else if self.master_key_scope_offset > backing_len || self.master_key_scope_size
            > backing_len - self.master_key_scope_offset {
            Some(HeaderDefect::ScopeBounds)
        } else {
            None
        }
    }
}

/// Opens a decrypted header: tests that it is authentic, decodes it and tests that
/// the volume it describes fits a backing store of `backing_len` bytes.
pub fn open_header(plain: &[u8; 512], backing_len: u64) -> (outcome: Result<VolumeHeader, Error>)
    ensures
        agrees(outcome, opened(plain@, backing_len as nat)),
{
    if !authenticate(plain) {
        return Err(Error::InvalidKey);
    }
    let header = VolumeHeader::parse(plain);
    match header.defect(backing_len) {
        Some(defect) => Err(Error::InvalidHeader(defect)),
        None => Ok(header),
    }
}

/// Decrypts a header as stored under the two halves of `key`. The salt stays as it
/// is; the 448 bytes after it are one data unit with tweak index 0.
pub fn decrypt_header(raw: &[u8; 512], key: &[u8; 64]) -> (plain: [u8; 512])
    ensures
        plain@ == decrypted_with(raw@, key@),
{
    let mut engine = XtsEngine::from_key_material(key);
    let mut plain: [u8; 512] = *raw;
    engine.decrypt_range(&mut plain, SALT_LEN, HEADER_LEN, HEADER_TWEAK_INDEX);
    engine.wipe();
    plain
}

/// Decrypts a header as stored under `key` and opens it.
pub fn unlock_with_key(raw: &[u8; 512], key: &[u8; 64], backing_len: u64) -> (outcome: Result<
    VolumeHeader,
    Error,
>)
    ensures
        agrees(outcome, opened(decrypted_with(raw@, key@), backing_len as nat)),
{
    let mut plain = decrypt_header(raw, key);
    let outcome = open_header(&plain, backing_len);
    wipe(&mut plain);
    outcome
}

/// Derives the header key from `password` and the header's salt, decrypts the header
/// and opens it.
pub fn unlock(raw: &[u8; 512], password: &[u8], backing_len: u64) -> (outcome: Result<
    VolumeHeader,
    Error,
>)
    ensures
        agrees(
            outcome,
            opened(decrypted_with(raw@, header_key(raw@, password@)), backing_len as nat),
        ),
{
    let salt: &[u8] = slice_subrange(raw.as_slice(), 0, SALT_LEN);
    let mut key = derive_key(password, salt, HEADER_ITERATIONS);
    let outcome = unlock_with_key(raw, &key, backing_len);
    wipe(&mut key);
    outcome
}

} // verus!

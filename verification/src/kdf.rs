//! Password-based key derivation for the volume header.

use vstd::prelude::*;

verus! {

/// The iteration count of the header key derivation.
pub const HEADER_ITERATIONS: u32 = 500_000;

/// The 64 bytes that PBKDF2 with HMAC-SHA-512 derives from a password, a salt and an
/// iteration count.
pub uninterp spec fn pbkdf2_hmac_sha512(
    password: Seq<u8>,
    salt: Seq<u8>,
    rounds: u32,
) -> Seq<u8>;

/// Calls `pbkdf2::pbkdf2_hmac::<sha2::Sha512>` on a zeroed buffer of 64 bytes. The
/// contract names what the call leaves in the buffer; it is a function of the three
/// arguments alone.
#[verifier::external_body]
fn pbkdf2_sha512(password: &[u8], salt: &[u8], rounds: u32) -> (key: [u8; 64])
    ensures
        key@ == pbkdf2_hmac_sha512(password@, salt@, rounds),
{
    let mut key = [0u8; 64];
    pbkdf2::pbkdf2_hmac::<sha2::Sha512>(password, salt, rounds, &mut key);
    key
}

/// Derives 64 bytes of key material from `password` and `salt`.
///
/// The result is a function of the three arguments: equal arguments give equal keys.
pub fn derive_key(password: &[u8], salt: &[u8], iterations: u32) -> (key: [u8; 64])
    ensures
        key@ == pbkdf2_hmac_sha512(password@, salt@, iterations),
        key@.len() == 64,
{
    pbkdf2_sha512(password, salt, iterations)
}

} // verus!

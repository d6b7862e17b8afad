//! Opens VeraCrypt-compatible containers: authenticates the volume header with a
//! passphrase and exposes the data area as a sector-encrypted block device.
//!
//! A container is a backing store ([`store`]) whose first 512 bytes are the header
//! ([`header`]). The header is decrypted with a key derived from the passphrase
//! ([`kdf`]) and holds the master keys of the data area. A mounted volume
//! ([`volume`]) reads and writes the data area sector by sector ([`sectors`]), each
//! sector one data unit of AES-256 in XTS mode ([`xts`]). The header's checksums are
//! CRC-32 ([`crc32`]).
//!
//! The primitives of PBKDF2 and XTS are called, not proved: their results enter the
//! contracts by name. Everything around them is verified against those names.

pub mod arith;
pub mod bytes;
pub mod crc32;
pub mod error;
pub mod header;
pub mod kdf;
pub mod sectors;
pub mod store;
pub mod volume;
pub mod xts;

pub use error::Error;
pub use header::VolumeHeader;
pub use volume::{MountedVolume, UnmountedVolume};

//! The ways in which opening, mounting and using a volume can fail.

use vstd::prelude::*;

verus! {

/// A failed operation of a backing store.
#[derive(Debug, PartialEq, Eq)]
pub enum IoFailure {
    /// The store ended before the requested bytes could be read or written.
    UnexpectedEnd,
    /// The requested position lies before the start of the store or beyond what a
    /// position can express.
    InvalidSeek,
    /// The store's device reported an error, described by the text.
    Device(String),
}

/// What is wrong with a header that passed the magic and checksum tests.
#[derive(Debug, Clone, Copy, PartialEq, Eq)]
pub enum HeaderDefect {
    /// The sector size is smaller than one cipher block.
    SectorSize,
    /// The length of the data area is not a multiple of the sector size.
    ScopeSize,
    /// The data area does not lie within the backing store.
    ScopeBounds,
}

/// Why a volume could not be opened or mounted.
#[derive(Debug, PartialEq, Eq)]
pub enum Error {
    /// The backing store could not be opened.
    FileOpenFailure(IoFailure),
    /// The backing store is too short to hold a header, or could not be read.
    InvalidVolume,
    /// The header does not decrypt to a valid one: the passphrase is wrong or the
    /// header is corrupt.
    InvalidKey,
    /// The header is authentic but describes an impossible volume.
    InvalidHeader(HeaderDefect),
}

} // verus!

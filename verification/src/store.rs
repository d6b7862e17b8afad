//! Backing stores: seekable byte sinks that hold an encrypted container.

use crate::error::IoFailure;
use vstd::prelude::*;

verus! {

/// Where a seek leads.
#[derive(Debug, Clone, Copy, PartialEq, Eq)]
pub enum SeekFrom {
    /// An offset from the start.
    Start(u64),
    /// An offset from the end. A backing store counts it forward from its end, as
    /// `std::io` does. A mounted volume counts it back from the end of its data area.
    End(i64),
    /// An offset from the current position.
    Current(i64),
}

/// The position that a seek asks for in a store of `len` bytes whose cursor is at
/// `position`. It may lie outside what a store can address.
pub open spec fn seek_target(len: int, position: int, to: SeekFrom) -> int {
    match to {
        SeekFrom::Start(offset) => offset as int,
        SeekFrom::End(offset) => len + offset,
        SeekFrom::Current(offset) => position + offset,
    }
}

/// `contents` with the bytes from `at` on replaced by `data`.
pub open spec fn overwritten(contents: Seq<u8>, at: int, data: Seq<u8>) -> Seq<u8>
    recommends
        0 <= at,
        at + data.len() <= contents.len(),
{
    contents.subrange(0, at) + data + contents.subrange(at + data.len(), contents.len() as int)
}

/// A store of bytes with a cursor: what a volume is read from and written to.
///
/// The four spec functions are the model that the contracts speak of. An
/// implementation inside this crate defines them and is verified against the
/// contracts. One outside cannot define them: it keeps the defaults, under which the
/// model is unknown and no success is promised, and is held to the contracts by its
/// author alone.
pub trait BackingStore {
    /// The bytes that the store holds.
    open spec fn contents(&self) -> Seq<u8> {
        arbitrary()
    }

    /// Where the next read or write starts.
    open spec fn position(&self) -> u64 {
        arbitrary()
    }

    /// Whether the store fails only for want of bytes or of a valid position, never
    /// for a reason of its own, and is unchanged by a call that fails.
    open spec fn dependable(&self) -> bool {
        false
    }

    /// Whether everything that was written to the store has been handed on to its
    /// device. A write may leave bytes behind in a buffer; a flush that succeeds
    /// leaves none.
    open spec fn flushed(&self) -> bool {
        arbitrary()
    }

    /// Fills `buf` with the bytes at the cursor and moves the cursor past them.
    fn read_exact(&mut self, buf: &mut [u8]) -> (outcome: Result<(), IoFailure>)
        ensures
            final(self).contents() == old(self).contents(),
            final(self).dependable() == old(self).dependable(),
            final(self).flushed() == old(self).flushed(),
            final(buf)@.len() == old(buf)@.len(),
            outcome is Ok ==> {
                &&& old(self).position() + old(buf)@.len() <= old(self).contents().len()
                &&& final(buf)@ == old(self).contents().subrange(
                    old(self).position() as int,
                    old(self).position() + old(buf)@.len(),
                )
                &&& final(self).position() == old(self).position() + old(buf)@.len()
            },
            old(self).dependable() ==> (outcome is Ok <==> old(self).position() + old(buf)@.len()
                <= old(self).contents().len()),
            old(self).dependable() && outcome is Err ==> {
                &&& outcome == Err::<(), IoFailure>(IoFailure::UnexpectedEnd)
                &&& final(self).position() == old(self).position()
                &&& final(buf)@ == old(buf)@
            },
    ;

    /// Writes `data` at the cursor and moves the cursor past it.
    ///
    /// The model covers writes that end within the store. Whether one that reaches
    /// past the end extends the store or fails is left to the store.
    fn write_all(&mut self, data: &[u8]) -> (outcome: Result<(), IoFailure>)
        ensures
            final(self).dependable() == old(self).dependable(),
            outcome is Ok ==> final(self).position() == old(self).position() + data@.len(),
            old(self).position() + data@.len() <= old(self).contents().len() ==> {
                &&& final(self).contents().len() == old(self).contents().len()
                &&& forall|i: int|
                    0 <= i < old(self).contents().len() && !(old(self).position() <= i < old(
                        self,
                    ).position() + data@.len()) ==> final(self).contents()[i] == old(
                        self,
                    ).contents()[i]
                &&& outcome is Ok ==> final(self).contents() == overwritten(
                    old(self).contents(),
                    old(self).position() as int,
                    data@,
                )
                &&& old(self).dependable() ==> outcome is Ok
            },
            old(self).dependable() && outcome is Err ==> {
                &&& outcome == Err::<(), IoFailure>(IoFailure::UnexpectedEnd)
                &&& final(self).contents() == old(self).contents()
                &&& final(self).position() == old(self).position()
            },
    ;

    /// Moves the cursor and returns its new position.
    fn seek(&mut self, to: SeekFrom) -> (outcome: Result<u64, IoFailure>)
        ensures
            final(self).contents() == old(self).contents(),
            final(self).dependable() == old(self).dependable(),
            final(self).flushed() == old(self).flushed(),
            outcome matches Ok(at) ==> {
                &&& at == seek_target(
                    old(self).contents().len() as int,
                    old(self).position() as int,
                    to,
                )
                &&& final(self).position() == at
            },
            old(self).dependable() ==> (outcome is Ok <==> 0 <= seek_target(
                old(self).contents().len() as int,
                old(self).position() as int,
                to,
            ) <= u64::MAX),
            old(self).dependable() && outcome is Err ==> {
                &&& outcome == Err::<u64, IoFailure>(IoFailure::InvalidSeek)
                &&& final(self).position() == old(self).position()
            },
    ;

    /// Hands what was written on to the device. After a flush that succeeds nothing
    /// written is left behind.
    fn flush(&mut self) -> (outcome: Result<(), IoFailure>)
        ensures
            final(self).contents() == old(self).contents(),
            final(self).position() == old(self).position(),
            final(self).dependable() == old(self).dependable(),
            outcome is Ok ==> final(self).flushed(),
            old(self).dependable() ==> outcome is Ok,
    ;
}

/// A store in memory, of fixed length.
pub struct MemoryStore {
    data: Vec<u8>,
    position: u64,
}

impl MemoryStore {
    /// A store that holds `data`, with the cursor at the start.
    pub fn new(data: Vec<u8>) -> (store: Self)
        ensures
            store.contents() == data@,
            store.position() == 0,
            store.dependable(),
    {
        MemoryStore { data, position: 0 }
    }

    /// The bytes that the store holds.
    pub fn as_slice(&self) -> (bytes: &[u8])
        ensures
            bytes@ == self.contents(),
    {
        self.data.as_slice()
    }

    /// Gives the bytes back.
    pub fn into_inner(self) -> (data: Vec<u8>)
        ensures
            data@ == self.contents(),
    {
        self.data
    }
}

impl BackingStore for MemoryStore {
    closed spec fn contents(&self) -> Seq<u8> {
        self.data@
    }

    closed spec fn position(&self) -> u64 {
        self.position
    }

    open spec fn dependable(&self) -> bool {
        true
    }

    open spec fn flushed(&self) -> bool {
        true
    }

    fn read_exact(&mut self, buf: &mut [u8]) -> (outcome: Result<(), IoFailure>) {
        let wanted: usize = buf.len();
        let len: usize = self.data.len();
        if self.position > len as u64 || wanted > len - self.position as usize {
            return Err(IoFailure::UnexpectedEnd);
        }
        let base: usize = self.position as usize;
        let mut i: usize = 0;
        while i < wanted
            invariant
                i <= wanted == buf@.len(),
                base + wanted <= len == self.data@.len(),
                forall|j: int| 0 <= j < i ==> buf@[j] == self.data@[base + j],
            decreases wanted - i,
        {
            buf[i] = self.data[base + i];
            i += 1;
        }
        proof {
            assert(buf@ =~= self.data@.subrange(base as int, base + wanted));
        }
        self.position = self.position + wanted as u64;
        Ok(())
    }

    fn write_all(&mut self, data: &[u8]) -> (outcome: Result<(), IoFailure>) {
        let wanted: usize = data.len();
        let len: usize = self.data.len();
        if self.position > len as u64 || wanted > len - self.position as usize {
            return Err(IoFailure::UnexpectedEnd);
        }
        let base: usize = self.position as usize;
        let ghost before = self.data@;
        let mut i: usize = 0;
        while i < wanted
            invariant
                i <= wanted == data@.len(),
                base + wanted <= len == self.data@.len() == before.len(),
                self.position == base,
                forall|j: int| 0 <= j < i ==> self.data@[base + j] == data@[j],
                forall|j: int|
                    0 <= j < len && !(base <= j < base + i) ==> self.data@[j] == before[j],
            decreases wanted - i,
        {
            self.data[base + i] = data[i];
            i += 1;
        }
        proof {
            assert(self.data@ =~= overwritten(before, base as int, data@));
        }
        self.position = self.position + wanted as u64;
        Ok(())
    }

    fn seek(&mut self, to: SeekFrom) -> (outcome: Result<u64, IoFailure>) {
        let len: u64 = self.data.len() as u64;
        let target: Option<u64> = match to {
            SeekFrom::Start(offset) => Some(offset),
            SeekFrom::End(offset) => len.checked_add_signed(offset),
            SeekFrom::Current(offset) => self.position.checked_add_signed(offset),
        };
        match target {
            Some(at) => {
                self.position = at;
                Ok(at)
            },
            None => Err(IoFailure::InvalidSeek),
        }
    }

    fn flush(&mut self) -> (outcome: Result<(), IoFailure>) {
        Ok(())
    }
}

} // verus!

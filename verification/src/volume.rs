//! Volumes: mounting a container and reading, writing and seeking in its data area.

use crate::arith::lemma_split;
use crate::bytes::wipe;
use crate::error::{Error, IoFailure};
use crate::header::{
    decrypted_with, header_key, opened, unlock, unlock_with_key, HeaderFields, VolumeHeader,
    HEADER_LEN,
};
use crate::sectors::{
    data_plaintext, delivered, held, lemma_patched_area, lemma_patched_byte,
    lemma_plain_byte_in_sector, lemma_sector_unchanged, lemma_span_end_aligned,
    lemma_span_end_in_sector, lemma_span_end_reaches, patched_byte, patched_sector, plain_byte,
    rewritten, sector_plaintext, span_end, touched, transfer,
};
use crate::store::{BackingStore, SeekFrom};
use crate::xts::{XtsEngine, MIN_UNIT_LEN};
use vstd::prelude::*;
use vstd::string::StringSliceAdditionalSpecFns;

verus! {

/// What mounting finds in a store that holds `contents`, with `key` as the header
/// key: the header's fields, or the reason why the store holds no volume for this key.
pub open spec fn mount_outcome(contents: Seq<u8>, key: Seq<u8>) -> Result<HeaderFields, Error> {
    if contents.len() < HEADER_LEN || contents.len() > u64::MAX {
        Err(Error::InvalidVolume)
    } else {
        opened(decrypted_with(contents.subrange(0, 512), key), contents.len())
    }
}

/// The logical position that a seek asks for in a data area of `size` bytes, with
/// the logical position at `position`. `End` counts back from the end of the area:
/// `End(n)` is `n` bytes before it.
pub open spec fn seek_position(size: int, position: int, to: SeekFrom) -> int {
    match to {
        SeekFrom::Start(offset) => offset as int,
        SeekFrom::End(offset) => size - offset,
        SeekFrom::Current(offset) => position + offset,
    }
}

/// Seeking to a position and reaching it from the start by reading lead to the same
/// position, and so to the same read.
pub proof fn lemma_seek_matches_skip(plain: Seq<u8>, target: u64, wanted: int, position: int)
    requires
        0 <= wanted,
        target + wanted <= plain.len(),
    ensures
        seek_position(plain.len() as int, position, SeekFrom::Start(target)) == target,
        seek_position(plain.len() as int, position, SeekFrom::Start(0)) + transfer(
            plain.len() as int,
            0,
            target as int,
        ) == target,
        delivered(
            plain,
            seek_position(plain.len() as int, position, SeekFrom::Start(target)),
            wanted,
        ) == delivered(
            plain,
            seek_position(plain.len() as int, position, SeekFrom::Start(0)) + transfer(
                plain.len() as int,
                0,
                target as int,
            ),
            wanted,
        ),
{
}

/// In a store that holds a data area whose start and length are multiples of the
/// sector length, every transfer within the area finds its sectors in the store. On a
/// dependable store such a transfer succeeds.
pub proof fn lemma_aligned_area_is_held(
    offset: int,
    size: int,
    sector_len: int,
    store_len: int,
    position: int,
    count: int,
)
    requires
        0 < sector_len,
        0 <= offset,
        offset % sector_len == 0,
        size % sector_len == 0,
        offset + size <= store_len,
        0 <= position,
        0 < count,
        position + count <= size,
    ensures
        span_end(offset, size, sector_len) == offset + size,
        span_end(offset + position, count, sector_len) <= store_len,
{
    lemma_span_end_aligned(offset, size, sector_len);
    let last = (offset + position + count - 1) / sector_len;
    lemma_split(offset + position + count - 1, sector_len);
    lemma_span_end_reaches(offset, size, sector_len, last);
    assert((last + 1) * sector_len == last * sector_len + sector_len) by (nonlinear_arith);
}

/// A container that has not been unlocked: nothing but its backing store.
pub struct UnmountedVolume<D: BackingStore> {
    data: D,
}

/// An unlocked container: the data area as a stream of plaintext bytes.
///
/// Logical position 0 is the first byte of the data area. Sector `i` of the backing
/// store is encrypted as one XTS data unit with tweak index `i`.
pub struct MountedVolume<D: BackingStore> {
    data: D,
    area: DataArea,
}

/// What a mounted volume knows of its data area: the header, the engine made from
/// the header's master keys, and the logical position.
struct DataArea {
    header: VolumeHeader,
    xts: XtsEngine,
    position: u64,
}

impl DataArea {
    #[verifier::type_invariant]
    spec fn well_formed(self) -> bool {
        &&& self.header.sector_size >= MIN_UNIT_LEN
        &&& self.header.master_key_scope_size % (self.header.sector_size as u64) == 0
        &&& self.header.master_key_scope_offset + self.header.master_key_scope_size <= u64::MAX
        &&& self.position <= self.header.master_key_scope_size
    }
}

impl<D: BackingStore> UnmountedVolume<D> {
    /// The backing store.
    pub closed spec fn store(&self) -> D {
        self.data
    }

    /// A volume in `data`, not yet unlocked.
    pub fn new(data: D) -> (volume: Self)
        ensures
            volume.store() == data,
    {
        UnmountedVolume { data }
    }

    /// Gives the backing store back.
    pub fn into_inner(self) -> (data: D)
        ensures
            data == self.store(),
    {
        self.data
    }

    /// Reads the header from the start of the store and asks the store for its length.
    fn load(&mut self) -> (loaded: Option<([u8; 512], u64)>)
        ensures
            final(self).store().contents() == old(self).store().contents(),
            final(self).store().dependable() == old(self).store().dependable(),
            loaded matches Some((raw, len)) ==> {
                &&& len == old(self).store().contents().len()
                &&& len >= HEADER_LEN
                &&& raw@ == old(self).store().contents().subrange(0, 512)
            },
            old(self).store().dependable() ==> (loaded is Some <==> HEADER_LEN <= old(
                self,
            ).store().contents().len() <= u64::MAX),
    {
        let mut raw = [0u8; 512];
        if self.data.seek(SeekFrom::Start(0)).is_err() {
            return None;
        }
        if self.data.read_exact(&mut raw).is_err() {
            return None;
        }
        match self.data.seek(SeekFrom::End(0)) {
            Ok(len) => Some((raw, len)),
            Err(_) => None,
        }
    }

    /// Builds the mounted volume around a header that was opened from this store.
    fn enter(self, header: VolumeHeader) -> (outcome: Result<MountedVolume<D>, Error>)
        requires
            header@.sector_size >= MIN_UNIT_LEN,
            header@.master_key_scope_size % header@.sector_size == 0,
            header@.master_key_scope_offset + header@.master_key_scope_size
                <= self.store().contents().len() <= u64::MAX,
        ensures
            outcome matches Ok(volume) ==> {
                &&& volume.header() == header
                &&& volume.store().contents() == self.store().contents()
                &&& volume.store().dependable() == self.store().dependable()
                &&& volume.position() == 0
                &&& volume.store().position() == volume.header()@.master_key_scope_offset
                &&& volume.engine().key1() == volume.header()@.master_keys.subrange(0, 32)
                &&& volume.engine().key2() == volume.header()@.master_keys.subrange(32, 64)
            },
            outcome matches Err(error) ==> error == Error::InvalidVolume,
            self.store().dependable() ==> outcome is Ok,
    {
        let mut data = self.data;
        if data.seek(SeekFrom::Start(header.master_key_scope_offset)).is_err() {
            return Err(Error::InvalidVolume);
        }
        let xts = XtsEngine::from_key_material(&header.master_keys);
        Ok(MountedVolume { data, area: DataArea { header, xts, position: 0 } })
    }

    /// Unlocks the volume with a header key that was derived beforehand.
    ///
    /// The header is read from the first 512 bytes of the store, decrypted under the
    /// two halves of `key`, authenticated, decoded and held against the length of the
    /// store. A store that cannot be read gives `InvalidVolume`.
    pub fn mount_with_key(self, key: &[u8; 64]) -> (outcome: Result<MountedVolume<D>, Error>)
        ensures
            mount_gives(self.store(), key@, outcome),
    {
        let mut volume = self;
        let (raw, len) = match volume.load() {
            Some(loaded) => loaded,
            None => { return Err(Error::InvalidVolume); },
        };
        match unlock_with_key(&raw, key, len) {
            Ok(header) => volume.enter(header),
            Err(error) => Err(error),
        }
    }

    /// Unlocks the volume with a passphrase.
    ///
    /// The header key is derived from the passphrase's bytes and the header's salt;
    /// the rest is as in [`UnmountedVolume::mount_with_key`]. A wrong passphrase and a
    /// corrupt header both give `InvalidKey`.
    pub fn mount(self, password: &str) -> (outcome: Result<MountedVolume<D>, Error>)
        ensures
            mount_gives(
                self.store(),
                header_key(self.store().contents().subrange(0, 512), password.spec_bytes()),
                outcome,
            ),
    {
        let mut volume = self;
        let (raw, len) = match volume.load() {
            Some(loaded) => loaded,
            None => { return Err(Error::InvalidVolume); },
        };
        match unlock(&raw, password.as_bytes(), len) {
            Ok(header) => volume.enter(header),
            Err(error) => Err(error),
        }
    }
}

/// Whether `outcome` is what mounting the store `data` under the header key `key`
/// may give.
///
/// A mounted volume has the header that the store holds for the key, an engine made
/// from the header's master keys and the logical position 0; the store holds what it
/// held, with its cursor at the start of the data area. An error is the reason why
/// the store holds no volume for the key; a store that is not dependable may also
/// fail to be read, which gives `InvalidVolume`.
pub open spec fn mount_gives<D: BackingStore>(
    data: D,
    key: Seq<u8>,
    outcome: Result<MountedVolume<D>, Error>,
) -> bool {
    match outcome {
        Ok(volume) => {
            &&& mount_outcome(data.contents(), key) == Ok::<HeaderFields, Error>(volume.header()@)
            &&& volume.store().contents() == data.contents()
            &&& volume.store().dependable() == data.dependable()
            &&& volume.store().position() == volume.header()@.master_key_scope_offset
            &&& volume.position() == 0
            &&& volume.engine().key1() == volume.header()@.master_keys.subrange(0, 32)
            &&& volume.engine().key2() == volume.header()@.master_keys.subrange(32, 64)
        },
        Err(error) => {
            ||| mount_outcome(data.contents(), key) == Err::<HeaderFields, Error>(error)
            ||| error == Error::InvalidVolume && !data.dependable()
        },
    }
}

/// Reads sector `index` of the store into `scratch`, whose length is the sector
/// length, and decrypts it there.
fn fetch_sector<D: BackingStore>(
    store: &mut D,
    engine: &XtsEngine,
    scratch: &mut Vec<u8>,
    index: u64,
) -> (outcome: Result<(), IoFailure>)
    requires
        old(scratch)@.len() >= MIN_UNIT_LEN,
        index * old(scratch)@.len() <= u64::MAX,
    ensures
        final(store).contents() == old(store).contents(),
        final(store).dependable() == old(store).dependable(),
        final(scratch)@.len() == old(scratch)@.len(),
        outcome is Ok ==> {
            &&& index * old(scratch)@.len() + old(scratch)@.len() <= old(store).contents().len()
            &&& final(scratch)@ == sector_plaintext(
                *engine,
                old(store).contents(),
                old(scratch)@.len() as int,
                index as int,
            )
        },
        old(store).dependable() ==> {
            &&& outcome is Ok <==> index * old(scratch)@.len() + old(scratch)@.len() <= old(
                store,
            ).contents().len()
            &&& outcome is Err ==> outcome == Err::<(), IoFailure>(IoFailure::UnexpectedEnd)
        },
{
    let sector64: u64 = scratch.len() as u64;
    match store.seek(SeekFrom::Start(index * sector64)) {
        Ok(_) => {},
        Err(error) => { return Err(error); },
    }
    match store.read_exact(scratch.as_mut_slice()) {
        Ok(()) => {},
        Err(error) => { return Err(error); },
    }
    engine.decrypt_unit(scratch.as_mut_slice(), index);
    Ok(())
}

/// Encrypts `scratch`, whose length is the sector length, and writes it to the store
/// as sector `index`.
fn store_sector<D: BackingStore>(
    store: &mut D,
    engine: &XtsEngine,
    scratch: &mut Vec<u8>,
    index: u64,
) -> (outcome: Result<(), IoFailure>)
    requires
        old(scratch)@.len() >= MIN_UNIT_LEN,
        index * old(scratch)@.len() + old(scratch)@.len() <= old(store).contents().len(),
        index * old(scratch)@.len() <= u64::MAX,
    ensures
        final(store).contents().len() == old(store).contents().len(),
        final(store).dependable() == old(store).dependable(),
        final(scratch)@.len() == old(scratch)@.len(),
        forall|a: int|
            0 <= a < old(store).contents().len() && !(index * old(scratch)@.len() <= a < index
                * old(scratch)@.len() + old(scratch)@.len()) ==> final(store).contents()[a] == old(
                store,
            ).contents()[a],
        outcome is Ok ==> sector_plaintext(
            *engine,
            final(store).contents(),
            old(scratch)@.len() as int,
            index as int,
        ) == old(scratch)@,
        old(store).dependable() ==> outcome is Ok,
{
    let sector64: u64 = scratch.len() as u64;
    let ghost plain = scratch@;
    engine.encrypt_unit(scratch.as_mut_slice(), index);
    match store.seek(SeekFrom::Start(index * sector64)) {
        Ok(_) => {},
        Err(error) => { return Err(error); },
    }
    match store.write_all(scratch.as_slice()) {
        Ok(()) => {},
        Err(error) => { return Err(error); },
    }
    proof {
        let sector = plain.len() as int;
        assert(store.contents().subrange(index * sector, index * sector + sector) =~= scratch@);
    }
    Ok(())
}

impl<D: BackingStore> MountedVolume<D> {
    /// The backing store.
    pub closed spec fn store(&self) -> D {
        self.data
    }

    /// The volume's header.
    pub closed spec fn header(&self) -> VolumeHeader {
        self.area.header
    }

    /// The engine of the data area.
    pub closed spec fn engine(&self) -> XtsEngine {
        self.area.xts
    }

    /// The logical position: where the next read or write starts in the data area.
    pub closed spec fn position(&self) -> u64 {
        self.area.position
    }

    /// The length of a sector.
    pub open spec fn sector_len(&self) -> int {
        self.header().sector_size as int
    }

    /// Where the data area starts in the backing store.
    pub open spec fn data_offset(&self) -> int {
        self.header().master_key_scope_offset as int
    }

    /// The length of the data area.
    pub open spec fn data_len(&self) -> int {
        self.header().master_key_scope_size as int
    }

    /// The position in the backing store that the logical position stands for.
    pub open spec fn backing_position(&self) -> int {
        self.data_offset() + self.position()
    }

    /// The plaintext of the byte at `address` of the backing store.
    pub open spec fn plain_at(&self, address: int) -> u8 {
        plain_byte(self.engine(), self.store().contents(), self.sector_len(), address)
    }

    /// The plaintext of the data area.
    pub open spec fn plaintext(&self) -> Seq<u8> {
        data_plaintext(
            self.engine(),
            self.store().contents(),
            self.sector_len(),
            self.data_offset(),
            self.data_len(),
        )
    }

    /// How many of `wanted` bytes a read or a write at the logical position handles:
    /// all of them, or as many as the data area has left.
    pub open spec fn transfer_len(&self, wanted: int) -> int {
        transfer(self.data_len(), self.position() as int, wanted)
    }

    /// Whether the store holds, with all their bytes, the sectors that `count` bytes
    /// from the logical position on touch.
    pub open spec fn sectors_held(&self, count: int) -> bool {
        count <= 0 || span_end(self.backing_position(), count, self.sector_len())
            <= self.store().contents().len()
    }

    /// Reads plaintext from the logical position on into `buf` and advances the
    /// position.
    ///
    /// As many bytes are delivered as `buf` takes and the data area has left; the
    /// rest of `buf` stays as it is. Every sector that the range touches is read
    /// whole from the store and decrypted with its own index as tweak. The read fails
    /// when the store does; the position then stays where it was.
    pub fn read(&mut self, buf: &mut [u8]) -> (outcome: Result<usize, IoFailure>)
        ensures
            final(self).header() == old(self).header(),
            final(self).engine() == old(self).engine(),
            final(self).store().contents() == old(self).store().contents(),
            final(self).store().dependable() == old(self).store().dependable(),
            final(buf)@.len() == old(buf)@.len(),
            outcome matches Ok(count) ==> {
                &&& count == old(self).transfer_len(old(buf)@.len() as int)
                &&& final(buf)@ == delivered(
                    old(self).plaintext(),
                    old(self).position() as int,
                    old(buf)@.len() as int,
                ) + old(buf)@.subrange(count as int, old(buf)@.len() as int)
                &&& final(self).position() == old(self).position() + count
                &&& old(self).sectors_held(count as int)
            },
            outcome is Err ==> final(self).position() == old(self).position(),
            old(self).transfer_len(old(buf)@.len() as int) == 0 ==> outcome is Ok,
            old(self).store().dependable() ==> {
                &&& outcome is Ok <==> old(self).sectors_held(
                    old(self).transfer_len(old(buf)@.len() as int),
                )
                &&& outcome is Err ==> outcome == Err::<usize, IoFailure>(IoFailure::UnexpectedEnd)
            },
    {
        proof {
            use_type_invariant(&self.area);
        }
        let capacity: usize = buf.len();
        let left: u64 = self.area.header.master_key_scope_size - self.area.position;
        let wanted: usize = if capacity as u64 > left {
            left as usize
        } else {
            capacity
        };
        if wanted == 0 {
            proof {
                assert(buf@ =~= old(self).plaintext().subrange(
                    old(self).position() as int,
                    old(self).position() as int,
                ) + old(buf)@.subrange(0, capacity as int));
            }
            return Ok(0);
        }
        let sector: usize = self.area.header.sector_size as usize;
        let sector64: u64 = self.area.header.sector_size as u64;
        let start: u64 = self.area.header.master_key_scope_offset + self.area.position;
        let first: u64 = start / sector64;
        let mut within: usize = (start % sector64) as usize;
        let mut index: u64 = first;
        let mut done: usize = 0;
        let mut scratch: Vec<u8> = vec![0u8; sector];
        let ghost contents = self.data.contents();
        let ghost engine = self.area.xts;
        proof {
            lemma_split(start as int, sector64 as int);
        }
        match self.data.seek(SeekFrom::Start(first * sector64)) {
            Ok(_) => {},
            Err(error) => { return Err(error); },
        }
        while done < wanted
            invariant
                self.area.header == old(self).area.header,
                self.area.xts == old(self).area.xts,
                self.area.position == old(self).area.position,
                self.data.contents() == contents,
                self.data.dependable() == old(self).data.dependable(),
                contents == old(self).data.contents(),
                engine == self.area.xts,
                sector == self.area.header.sector_size >= MIN_UNIT_LEN,
                scratch@.len() == sector,
                buf@.len() == capacity == old(buf)@.len(),
                0 < wanted <= capacity,
                wanted == old(self).transfer_len(capacity as int),
                start == old(self).backing_position(),
                done <= wanted,
                start + wanted <= u64::MAX,
                within < sector,
                done < wanted ==> start + done == index * sector + within,
                done < wanted ==> self.data.position() == index * sector,
                done == wanted ==> span_end(start as int, wanted as int, sector as int)
                    <= contents.len(),
                forall|j: int|
                    0 <= j < done ==> buf@[j] == plain_byte(
                        engine,
                        contents,
                        sector as int,
                        start + j,
                    ),
                forall|j: int| done <= j < capacity ==> buf@[j] == old(buf)@[j],
            decreases wanted - done,
        {
            match self.data.read_exact(scratch.as_mut_slice()) {
                Ok(()) => {},
                Err(error) => {
                    proof {
                        lemma_span_end_reaches(
                            start as int,
                            wanted as int,
                            sector as int,
                            index as int,
                        );
                    }
                    wipe(scratch.as_mut_slice());
                    return Err(error);
                },
            }
            self.area.xts.decrypt_unit(scratch.as_mut_slice(), index);
            let room: usize = sector - within;
            let take: usize = if wanted - done < room {
                wanted - done
            } else {
                room
            };
            let mut moved: usize = 0;
            while moved < take
                invariant
                    moved <= take,
                    within + take <= sector == scratch@.len(),
                    done + take <= wanted <= capacity == buf@.len() == old(buf)@.len(),
                    forall|j: int| 0 <= j < done ==> buf@[j] == plain_byte(
                        engine,
                        contents,
                        sector as int,
                        start + j,
                    ),
                    forall|j: int|
                        done <= j < done + moved ==> buf@[j] == scratch@[within + (j - done)],
                    forall|j: int| done + moved <= j < capacity ==> buf@[j] == old(buf)@[j],
                decreases take - moved,
            {
                buf[done + moved] = scratch[within + moved];
                moved += 1;
            }
            proof {
                assert(scratch@ == sector_plaintext(engine, contents, sector as int, index as int));
                assert forall|j: int| 0 <= j < done + take implies buf@[j] == plain_byte(
                    engine,
                    contents,
                    sector as int,
                    start + j,
                ) by {
                    if j >= done {
                        lemma_plain_byte_in_sector(
                            engine,
                            contents,
                            sector as int,
                            index as int,
                            within + (j - done),
                        );
                    }
                }
                if done + take == wanted {
                    lemma_span_end_in_sector(
                        start as int,
                        wanted as int,
                        sector as int,
                        index as int,
                        within + take - 1,
                    );
                } else {
                    assert((index + 1) * sector == index * sector + sector) by (nonlinear_arith);
                    assert(index + 1 <= (index + 1) * sector) by (nonlinear_arith)
                        requires
                            sector >= 1,
                            index >= 0,
                    ;
                }
            }
            done = done + take;
            within = 0;
            if done < wanted {
                index = index + 1;
            }
        }
        wipe(scratch.as_mut_slice());
        self.area.position = self.area.position + wanted as u64;
        proof {
            assert(buf@ =~= old(self).plaintext().subrange(
                old(self).position() as int,
                old(self).position() + wanted,
            ) + old(buf)@.subrange(wanted as int, capacity as int));
        }
        Ok(wanted)
    }

    /// Whether the store holds, with all their bytes, the sectors that the data area
    /// touches.
    pub open spec fn area_held(&self) -> bool {
        span_end(self.data_offset(), self.data_len(), self.sector_len())
            <= self.store().contents().len()
    }

    /// Writes `data` as plaintext from the logical position on and advances the
    /// position.
    ///
    /// As many bytes are written as `data` has and the data area has left. Every
    /// sector that the range touches is read whole, decrypted, changed where `data`
    /// falls and written back encrypted, so that the plaintext around `data` stays as
    /// it was. The write fails when the store does; the position then stays where it
    /// was, and what the store holds outside the touched sectors is unchanged.
    pub fn write(&mut self, data: &[u8]) -> (outcome: Result<usize, IoFailure>)
        ensures
            final(self).header() == old(self).header(),
            final(self).engine() == old(self).engine(),
            final(self).store().dependable() == old(self).store().dependable(),
            final(self).store().contents().len() == old(self).store().contents().len(),
            forall|a: int|
                0 <= a < old(self).store().contents().len() && !touched(
                    old(self).backing_position(),
                    old(self).transfer_len(data@.len() as int),
                    old(self).sector_len(),
                    a,
                ) ==> final(self).store().contents()[a] == old(self).store().contents()[a],
            outcome matches Ok(count) ==> {
                &&& count == old(self).transfer_len(data@.len() as int)
                &&& final(self).position() == old(self).position() + count
                &&& old(self).sectors_held(count as int)
                &&& forall|a: int|
                    held(old(self).store().contents().len() as int, old(self).sector_len(), a)
                        ==> #[trigger] final(self).plain_at(a) == patched_byte(
                        old(self).engine(),
                        old(self).store().contents(),
                        old(self).sector_len(),
                        old(self).backing_position(),
                        data@.subrange(0, count as int),
                        a,
                    )
                &&& old(self).area_held() ==> final(self).plaintext() == rewritten(
                    old(self).plaintext(),
                    old(self).position() as int,
                    data@,
                )
            },
            outcome is Err ==> final(self).position() == old(self).position(),
            old(self).transfer_len(data@.len() as int) == 0 ==> outcome is Ok,
            old(self).store().dependable() ==> {
                &&& outcome is Ok <==> old(self).sectors_held(
                    old(self).transfer_len(data@.len() as int),
                )
                &&& outcome is Err ==> outcome == Err::<usize, IoFailure>(IoFailure::UnexpectedEnd)
            },
    {
        proof {
            use_type_invariant(&self.area);
        }
        let capacity: usize = data.len();
        let left: u64 = self.area.header.master_key_scope_size - self.area.position;
        let wanted: usize = if capacity as u64 > left {
            left as usize
        } else {
            capacity
        };
        let ghost taken = data@.subrange(0, wanted as int);
        if wanted == 0 {
            proof {
                assert(self.plaintext() =~= rewritten(
                    old(self).plaintext(),
                    old(self).position() as int,
                    data@,
                ));
            }
            return Ok(0);
        }
        let sector: usize = self.area.header.sector_size as usize;
        let sector64: u64 = self.area.header.sector_size as u64;
        let start: u64 = self.area.header.master_key_scope_offset + self.area.position;
        let first: u64 = start / sector64;
        let mut within: usize = (start % sector64) as usize;
        let mut index: u64 = first;
        let mut done: usize = 0;
        let mut scratch: Vec<u8> = vec![0u8; sector];
        let ghost before = self.data.contents();
        let ghost engine = self.area.xts;
        let ghost mut next: int = first as int;
        proof {
            lemma_split(start as int, sector64 as int);
        }
        while done < wanted
            invariant
                self.area.header == old(self).area.header,
                self.area.xts == old(self).area.xts,
                self.area.position == old(self).area.position,
                self.data.dependable() == old(self).data.dependable(),
                self.data.contents().len() == before.len(),
                before == old(self).data.contents(),
                engine == self.area.xts,
                taken == data@.subrange(0, wanted as int),
                sector == self.area.header.sector_size >= MIN_UNIT_LEN,
                scratch@.len() == sector,
                data@.len() == capacity,
                old(self).sector_len() == sector,
                0 < wanted <= capacity,
                wanted == old(self).transfer_len(capacity as int),
                start == old(self).backing_position(),
                first == (start as int) / (sector as int),
                first * sector <= start,
                done <= wanted,
                start + wanted <= u64::MAX,
                within < sector,
                done < wanted ==> start + done == index * sector + within,
                done > 0 ==> within == 0,
                done < wanted ==> next == index,
                done == wanted ==> next * sector == span_end(
                    start as int,
                    wanted as int,
                    sector as int,
                ) <= before.len(),
                first <= next,
                forall|a: int|
                    0 <= a < before.len() && !(first * sector <= a < next * sector)
                        ==> self.data.contents()[a] == before[a],
                forall|j: int|
                    first <= j < next ==> #[trigger] sector_plaintext(
                        engine,
                        self.data.contents(),
                        sector as int,
                        j,
                    ) == patched_sector(engine, before, sector as int, start as int, taken, j),
            decreases wanted - done,
        {
            let ghost entry = self.data.contents();
            proof {
                lemma_span_end_reaches(start as int, wanted as int, sector as int, index as int);
            }
            match fetch_sector(&mut self.data, &self.area.xts, &mut scratch, index) {
                Ok(()) => {},
                Err(error) => {
                    wipe(scratch.as_mut_slice());
                    return Err(error);
                },
            }
            let ghost fetched = scratch@;
            proof {
                lemma_sector_unchanged(engine, before, entry, sector as int, index as int);
                assert(fetched == sector_plaintext(engine, before, sector as int, index as int));
            }
            let room: usize = sector - within;
            let take: usize = if wanted - done < room {
                wanted - done
            } else {
                room
            };
            let mut moved: usize = 0;
            while moved < take
                invariant
                    moved <= take,
                    within + take <= sector == scratch@.len() == fetched.len(),
                    done + take <= wanted <= capacity == data@.len(),
                    forall|t: int|
                        within <= t < within + moved ==> scratch@[t] == data@[done + (t - within)],
                    forall|t: int|
                        0 <= t < sector && !(within <= t < within + moved) ==> scratch@[t]
                            == fetched[t],
                decreases take - moved,
            {
                scratch[within + moved] = data[done + moved];
                moved += 1;
            }
            let ghost patched = scratch@;
            proof {
                assert(patched =~= patched_sector(
                    engine,
                    before,
                    sector as int,
                    start as int,
                    taken,
                    index as int,
                )) by {
                    assert forall|t: int| 0 <= t < sector implies patched[t] == patched_byte(
                        engine,
                        before,
                        sector as int,
                        start as int,
                        taken,
                        index * sector + t,
                    ) by {
                        lemma_plain_byte_in_sector(engine, before, sector as int, index as int, t);
                    }
                }
            }
            proof {
                assert(first * sector <= index * sector) by (nonlinear_arith)
                    requires
                        first <= index,
                        0 < sector,
                ;
            }
            match store_sector(&mut self.data, &self.area.xts, &mut scratch, index) {
                Ok(()) => {},
                Err(error) => {
                    wipe(scratch.as_mut_slice());
                    return Err(error);
                },
            }
            proof {
                let after = self.data.contents();
                assert(sector_plaintext(engine, after, sector as int, index as int) == patched);
                assert((index + 1) * sector == index * sector + sector) by (nonlinear_arith);
                assert forall|j: int| first <= j < index + 1 implies #[trigger] sector_plaintext(
                    engine,
                    after,
                    sector as int,
                    j,
                ) == patched_sector(engine, before, sector as int, start as int, taken, j) by {
                    if j < index {
                        assert(j * sector + sector <= index * sector) by (nonlinear_arith)
                            requires
                                j + 1 <= index,
                                0 < sector,
                        ;
                        lemma_sector_unchanged(engine, entry, after, sector as int, j);
                    }
                }
                assert(first * sector <= index * sector) by (nonlinear_arith)
                    requires
                        first <= index,
                        0 < sector,
                ;
                if done + take == wanted {
                    lemma_span_end_in_sector(
                        start as int,
                        wanted as int,
                        sector as int,
                        index as int,
                        within + take - 1,
                    );
                } else {
                    assert(index + 1 <= (index + 1) * sector) by (nonlinear_arith)
                        requires
                            sector >= 1,
                            index >= 0,
                    ;
                }
                next = index + 1;
            }
            done = done + take;
            within = 0;
            if done < wanted {
                index = index + 1;
            }
        }
        wipe(scratch.as_mut_slice());
        self.area.position = self.area.position + wanted as u64;
        proof {
            let after = self.data.contents();
            let len = before.len() as int;
            assert forall|a: int| held(len, sector as int, a) implies #[trigger] plain_byte(
                engine,
                after,
                sector as int,
                a,
            ) == patched_byte(engine, before, sector as int, start as int, taken, a) by {
                lemma_patched_byte(
                    engine,
                    before,
                    after,
                    sector as int,
                    start as int,
                    taken,
                    first as int,
                    next,
                    a,
                );
            }
            if old(self).area_held() {
                lemma_patched_area(
                    engine,
                    before,
                    after,
                    sector as int,
                    old(self).data_offset(),
                    old(self).data_len(),
                    old(self).position() as int,
                    taken,
                );
                assert(taken.subrange(0, wanted as int) =~= taken);
            }
        }
        Ok(wanted)
    }

    /// The logical position that a seek asks for.
    pub open spec fn seek_goal(&self, to: SeekFrom) -> int {
        seek_position(self.data_len(), self.position() as int, to)
    }

    /// Moves the logical position and returns it.
    ///
    /// A position outside the data area, its end included, is refused with
    /// `InvalidSeek`, and the position stays where it was. The backing store is not
    /// touched: every read and write seeks it to the sector it needs.
    pub fn seek(&mut self, to: SeekFrom) -> (outcome: Result<u64, IoFailure>)
        ensures
            final(self).header() == old(self).header(),
            final(self).engine() == old(self).engine(),
            final(self).store() == old(self).store(),
            0 <= old(self).seek_goal(to) <= old(self).data_len() ==> outcome == Ok::<
                u64,
                IoFailure,
            >(old(self).seek_goal(to) as u64) && final(self).position() == old(self).seek_goal(to),
            !(0 <= old(self).seek_goal(to) <= old(self).data_len()) ==> outcome == Err::<
                u64,
                IoFailure,
            >(IoFailure::InvalidSeek) && final(self).position() == old(self).position(),
    {
        proof {
            use_type_invariant(&self.area);
        }
        let size: u64 = self.area.header.master_key_scope_size;
        let goal: Option<u64> = match to {
            SeekFrom::Start(offset) => Some(offset),
            SeekFrom::End(offset) => if offset >= 0 {
                size.checked_sub(offset as u64)
            } else {
                None
            },
            SeekFrom::Current(offset) => self.area.position.checked_add_signed(offset),
        };
        match goal {
            Some(at) => {
                if at <= size {
                    self.area.position = at;
                    Ok(at)
                } else {
                    Err(IoFailure::InvalidSeek)
                }
            },
            None => Err(IoFailure::InvalidSeek),
        }
    }

    /// Hands what was written on to the store's device: flushes the store and gives
    /// back what the store's flush gave. After success the store has nothing written
    /// left behind. The volume keeps no buffer of its own: every write has reached
    /// the store when it returns.
    pub fn flush(&mut self) -> (outcome: Result<(), IoFailure>)
        ensures
            final(self).header() == old(self).header(),
            final(self).engine() == old(self).engine(),
            final(self).position() == old(self).position(),
            final(self).store().contents() == old(self).store().contents(),
            final(self).store().dependable() == old(self).store().dependable(),
            outcome is Ok ==> final(self).store().flushed(),
            old(self).store().dependable() ==> outcome is Ok,
    {
        self.data.flush()
    }

    /// Ends the mount and gives the backing store back. The header and the engine
    /// are dropped, which overwrites their keys with zeros.
    pub fn unmount(self) -> (data: D)
        ensures
            data == self.store(),
    {
        let MountedVolume { data, area: _ } = self;
        data
    }

    /// The logical position.
    pub fn stream_position(&self) -> (at: u64)
        ensures
            at == self.position(),
            at <= self.data_len(),
    {
        proof {
            use_type_invariant(&self.area);
        }
        self.area.position
    }

    /// The length of the data area in bytes.
    pub fn len(&self) -> (len: u64)
        ensures
            len == self.data_len(),
    {
        self.area.header.master_key_scope_size
    }

    /// The volume's header.
    pub fn volume_header(&self) -> (header: &VolumeHeader)
        ensures
            *header == self.header(),
            header@.sector_size >= MIN_UNIT_LEN,
            header@.master_key_scope_size % header@.sector_size == 0,
            header@.master_key_scope_offset + header@.master_key_scope_size <= u64::MAX,
    {
        proof {
            use_type_invariant(&self.area);
        }
        &self.area.header
    }
}

} // verus!

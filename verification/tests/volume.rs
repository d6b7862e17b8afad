use aes::cipher::generic_array::GenericArray;
use aes::cipher::KeyInit;
use aes::Aes256;
use veracrypt::error::{Error, HeaderDefect, IoFailure};
use veracrypt::store::{BackingStore, MemoryStore, SeekFrom};
use veracrypt::{MountedVolume, UnmountedVolume, VolumeHeader};
use xts_mode::{get_tweak_default, Xts128};

/// What PBKDF2-HMAC-SHA-512 derives from "password1234" and 64 bytes of 7 in 500 000
/// rounds.
const KEY_FOR_PASSWORD1234: [u8; 64] = [
    34, 242, 109, 28, 237, 75, 5, 178, 105, 53, 40, 67, 229, 77, 171, 238, 170, 190, 252, 133, 253,
    160, 94, 181, 193, 237, 69, 91, 109, 235, 135, 189, 232, 66, 120, 53, 222, 36, 254, 18, 80, 104,
    222, 147, 244, 189, 45, 38, 127, 217, 46, 46, 225, 115, 160, 104, 83, 250, 48, 14, 59, 25, 103,
    166,
];

/// What the same derivation gives for "wrong".
const KEY_FOR_WRONG: [u8; 64] = [
    189, 216, 152, 79, 147, 236, 199, 168, 112, 102, 123, 226, 143, 152, 5, 43, 192, 4, 95, 114, 32,
    73, 73, 4, 200, 114, 217, 145, 114, 47, 182, 236, 234, 109, 190, 31, 119, 175, 10, 192, 17, 52,
    11, 147, 98, 185, 161, 80, 244, 45, 64, 61, 130, 199, 117, 168, 176, 49, 26, 245, 197, 170, 87,
    137,
];

/// What the same derivation gives for "password12345".
const KEY_FOR_PASSWORD12345: [u8; 64] = [
    102, 75, 64, 38, 196, 45, 180, 135, 59, 206, 45, 206, 28, 167, 136, 2, 253, 169, 188, 73, 97,
    243, 85, 69, 152, 196, 106, 13, 189, 30, 114, 216, 36, 201, 153, 3, 115, 157, 170, 198, 193, 114,
    250, 44, 191, 45, 252, 177, 130, 130, 211, 191, 176, 10, 153, 217, 13, 173, 50, 252, 182, 49,
    136, 194,
];

const MIB: u64 = 1_048_576;

fn master_keys() -> [u8; 64] {
    let mut keys = [0u8; 64];
    for i in 0..64 {
        keys[i] = (i as u8).wrapping_mul(37).wrapping_add(11);
    }
    keys
}

fn engine_of(key: &[u8; 64]) -> Xts128<Aes256> {
    Xts128::<Aes256>::new(
        Aes256::new(GenericArray::from_slice(&key[..32])),
        Aes256::new(GenericArray::from_slice(&key[32..])),
    )
}

fn crc_of(bytes: &[u8]) -> u32 {
    crc::Crc::<u32>::new(&crc::CRC_32_ISO_HDLC).checksum(bytes)
}

fn stored_header(offset: u64, size: u64, sector: u32) -> [u8; 512] {
    let mut plain = [0u8; 512];
    plain[..64].copy_from_slice(&[7u8; 64]);
    plain[64..68].copy_from_slice(b"VERA");
    plain[68..70].copy_from_slice(&5u16.to_be_bytes());
    plain[70..72].copy_from_slice(&0x010Bu16.to_be_bytes());
    plain[100..108].copy_from_slice(&size.to_be_bytes());
    plain[108..116].copy_from_slice(&offset.to_be_bytes());
    plain[116..124].copy_from_slice(&size.to_be_bytes());
    plain[128..132].copy_from_slice(&sector.to_be_bytes());
    plain[256..320].copy_from_slice(&master_keys());
    let keys_crc = crc_of(&plain[256..512]);
    plain[72..76].copy_from_slice(&keys_crc.to_be_bytes());
    let fields_crc = crc_of(&plain[64..252]);
    plain[252..256].copy_from_slice(&fields_crc.to_be_bytes());
    engine_of(&KEY_FOR_PASSWORD1234).encrypt_area(&mut plain[64..], 448, 0, get_tweak_default);
    plain
}

/// The plaintext of the backing store at an address, before it was encrypted.
fn pattern(address: u64) -> u8 {
    (address.wrapping_mul(2654435761) >> 7) as u8 ^ (address as u8)
}

/// A container of `len` bytes whose sectors from `from` up to `to` hold the pattern,
/// encrypted with the master keys, each under its index in the store.
fn container(offset: u64, size: u64, sector: u32, len: u64, from: u64, to: u64) -> Vec<u8> {
    let mut bytes = vec![0u8; len as usize];
    bytes[..512].copy_from_slice(&stored_header(offset, size, sector));
    let data = engine_of(&master_keys());
    let sector = sector as u64;
    for index in from..to {
        let start = (index * sector) as usize;
        let unit = &mut bytes[start..start + sector as usize];
        for (i, byte) in unit.iter_mut().enumerate() {
            *byte = pattern(index * sector + i as u64);
        }
        data.encrypt_sector(unit, get_tweak_default(index as u128));
    }
    bytes
}

/// A container with 1 MiB of data after 128 KiB, of which the first eight sectors
/// hold the pattern.
fn big_container() -> Vec<u8> {
    container(131_072, MIB, 512, 131_072 + MIB, 256, 264)
}

/// A container with 8 KiB of data after 1 KiB, all of it the pattern.
fn small_container() -> Vec<u8> {
    container(1024, 8192, 512, 1024 + 8192, 2, 18)
}

fn mounted(bytes: Vec<u8>) -> MountedVolume<MemoryStore> {
    UnmountedVolume::new(MemoryStore::new(bytes))
        .mount_with_key(&KEY_FOR_PASSWORD1234)
        .expect("the container mounts under its key")
}

fn expected(offset: u64, position: u64, len: usize) -> Vec<u8> {
    (0..len as u64).map(|i| pattern(offset + position + i)).collect()
}

#[test]
fn it_decrypts_file() {
    let volume = UnmountedVolume::new(MemoryStore::new(big_container()));
    let password = "password1234";
    let mut volume = volume.mount(password).expect("the right passphrase mounts");
    assert_eq!(volume.len(), MIB);
    assert_eq!(volume.stream_position(), 0);
    let header: &VolumeHeader = volume.volume_header();
    assert_eq!(header.master_key_scope_offset, 131_072);
    assert_eq!(header.master_key_scope_size, MIB);
    assert_eq!(header.sector_size, 512);
    assert_eq!(header.master_keys, master_keys());
    assert_eq!(header.salt, [7u8; 64]);
    let mut buf = vec![0u8; 1024];
    assert_eq!(volume.read(&mut buf), Ok(1024));
    assert_eq!(buf, expected(131_072, 0, 1024));
}

#[test]
fn mount_with_key_mounts_under_the_derived_key() {
    let volume = mounted(big_container());
    assert_eq!(volume.len(), MIB);
    assert_eq!(volume.stream_position(), 0);
    assert_eq!(volume.volume_header().master_keys, master_keys());
    assert_eq!(volume.volume_header().master_key_scope_offset, 131_072);
}

#[test]
fn the_key_of_a_wrong_password_is_invalid() {
    let volume = UnmountedVolume::new(MemoryStore::new(big_container()));
    assert!(matches!(
        volume.mount_with_key(&KEY_FOR_WRONG),
        Err(Error::InvalidKey)
    ));
}

#[test]
fn the_key_of_a_longer_password_is_invalid() {
    let volume = UnmountedVolume::new(MemoryStore::new(big_container()));
    assert!(matches!(
        volume.mount_with_key(&KEY_FOR_PASSWORD12345),
        Err(Error::InvalidKey)
    ));
}

#[test]
fn a_key_that_differs_in_one_bit_is_invalid() {
    for at in [0usize, 17, 31, 32, 63] {
        let mut wrong = KEY_FOR_PASSWORD1234;
        wrong[at] ^= 4;
        assert!(
            matches!(
                UnmountedVolume::new(MemoryStore::new(small_container())).mount_with_key(&wrong),
                Err(Error::InvalidKey)
            ),
            "byte {}",
            at
        );
    }
}

#[test]
fn mount_detects_a_flipped_bit_in_the_master_keys() {
    let mut bytes = big_container();
    bytes[300] ^= 0x01;
    let volume = UnmountedVolume::new(MemoryStore::new(bytes));
    assert!(matches!(
        volume.mount_with_key(&KEY_FOR_PASSWORD1234),
        Err(Error::InvalidKey)
    ));
}

#[test]
fn mount_detects_a_flipped_bit_in_the_fields() {
    let mut bytes = big_container();
    bytes[100] ^= 0x01;
    let volume = UnmountedVolume::new(MemoryStore::new(bytes));
    assert!(matches!(
        volume.mount_with_key(&KEY_FOR_PASSWORD1234),
        Err(Error::InvalidKey)
    ));
}

#[test]
fn mount_ignores_what_follows_the_header() {
    let mut bytes = big_container();
    bytes[512] ^= 0xFF;
    bytes[131_072] ^= 0xFF;
    assert!(UnmountedVolume::new(MemoryStore::new(bytes))
        .mount_with_key(&KEY_FOR_PASSWORD1234)
        .is_ok());
}

#[test]
fn a_store_without_room_for_a_header_is_no_volume() {
    for len in [0usize, 1, 64, 511] {
        let volume = UnmountedVolume::new(MemoryStore::new(vec![0u8; len]));
        assert!(
            matches!(volume.mount_with_key(&KEY_FOR_PASSWORD1234), Err(Error::InvalidVolume)),
            "length {}",
            len
        );
    }
    let volume = UnmountedVolume::new(MemoryStore::new(vec![0u8; 512]));
    assert!(matches!(
        volume.mount_with_key(&KEY_FOR_PASSWORD1234),
        Err(Error::InvalidKey)
    ));
}

#[test]
fn mount_reports_header_defects() {
    let mut bytes = small_container();
    bytes.truncate(1024 + 8191);
    assert!(matches!(
        UnmountedVolume::new(MemoryStore::new(bytes)).mount_with_key(&KEY_FOR_PASSWORD1234),
        Err(Error::InvalidHeader(HeaderDefect::ScopeBounds))
    ));
    let mut bytes = small_container();
    bytes[..512].copy_from_slice(&stored_header(1024, 8192, 0));
    assert!(matches!(
        UnmountedVolume::new(MemoryStore::new(bytes)).mount_with_key(&KEY_FOR_PASSWORD1234),
        Err(Error::InvalidHeader(HeaderDefect::SectorSize))
    ));
    let mut bytes = small_container();
    bytes[..512].copy_from_slice(&stored_header(1024, 8000, 512));
    assert!(matches!(
        UnmountedVolume::new(MemoryStore::new(bytes)).mount_with_key(&KEY_FOR_PASSWORD1234),
        Err(Error::InvalidHeader(HeaderDefect::ScopeSize))
    ));
}

#[test]
fn mount_leaves_the_store_as_it_was() {
    let bytes = small_container();
    let volume = mounted(bytes.clone());
    assert_eq!(volume.unmount().into_inner(), bytes);
    let unmounted = UnmountedVolume::new(MemoryStore::new(bytes.clone()));
    assert_eq!(unmounted.into_inner().into_inner(), bytes);
}

#[test]
fn sector_read_round_trip() {
    let mut volume = mounted(big_container());
    assert_eq!(volume.seek(SeekFrom::Start(0)), Ok(0));
    let mut buf = vec![0u8; 1024];
    assert_eq!(volume.read(&mut buf), Ok(1024));
    assert_eq!(buf, expected(131_072, 0, 1024));
    assert_eq!(volume.stream_position(), 1024);
}

#[test]
fn cross_sector_small_read() {
    let mut volume = mounted(big_container());
    assert_eq!(volume.seek(SeekFrom::Start(500)), Ok(500));
    let mut buf = [0u8; 24];
    assert_eq!(volume.read(&mut buf), Ok(24));
    assert_eq!(buf.to_vec(), expected(131_072, 500, 24));
    assert_eq!(buf[11], pattern(131_072 + 511));
    assert_eq!(buf[12], pattern(131_072 + 512));
    assert_eq!(volume.stream_position(), 524);
}

#[test]
fn a_read_of_one_sector_length_straddles_two_sectors() {
    let mut volume = mounted(small_container());
    assert_eq!(volume.seek(SeekFrom::Start(100)), Ok(100));
    let mut buf = [0u8; 512];
    assert_eq!(volume.read(&mut buf), Ok(512));
    assert_eq!(buf.to_vec(), expected(1024, 100, 512));
    assert_eq!(volume.stream_position(), 612);
}

#[test]
fn a_read_of_nothing_delivers_nothing() {
    let mut volume = mounted(small_container());
    assert_eq!(volume.seek(SeekFrom::Start(700)), Ok(700));
    let mut nothing: [u8; 0] = [];
    assert_eq!(volume.read(&mut nothing), Ok(0));
    assert_eq!(volume.stream_position(), 700);
    assert_eq!(volume.seek(SeekFrom::Start(0)), Ok(0));
    assert_eq!(volume.read(&mut nothing), Ok(0));
    assert_eq!(volume.stream_position(), 0);
}

#[test]
fn a_read_on_a_boundary_uses_consecutive_tweaks() {
    let bytes = small_container();
    let mut volume = mounted(bytes.clone());
    assert_eq!(volume.seek(SeekFrom::Start(1024)), Ok(1024));
    let mut buf = [0u8; 1024];
    assert_eq!(volume.read(&mut buf), Ok(1024));
    let data = engine_of(&master_keys());
    let mut first = bytes[2048..2560].to_vec();
    data.decrypt_sector(&mut first, get_tweak_default(4));
    let mut second = bytes[2560..3072].to_vec();
    data.decrypt_sector(&mut second, get_tweak_default(5));
    assert_eq!(&buf[..512], &first[..]);
    assert_eq!(&buf[512..], &second[..]);
    let mut repeated = bytes[2560..3072].to_vec();
    data.decrypt_sector(&mut repeated, get_tweak_default(4));
    assert_ne!(&buf[512..], &repeated[..]);
    assert_eq!(buf.to_vec(), expected(1024, 1024, 1024));
}

#[test]
fn the_tweak_counts_sectors_of_the_backing_store() {
    let bytes = small_container();
    let mut volume = mounted(bytes.clone());
    let mut buf = [0u8; 512];
    assert_eq!(volume.read(&mut buf), Ok(512));
    let data = engine_of(&master_keys());
    let mut by_store = bytes[1024..1536].to_vec();
    data.decrypt_sector(&mut by_store, get_tweak_default(2));
    assert_eq!(&buf[..], &by_store[..]);
    let mut by_area = bytes[1024..1536].to_vec();
    data.decrypt_sector(&mut by_area, get_tweak_default(0));
    assert_ne!(&buf[..], &by_area[..]);
}

#[test]
fn reads_of_many_shapes_deliver_the_plaintext() {
    let mut volume = mounted(small_container());
    for (position, len) in [
        (0u64, 1usize),
        (0, 511),
        (0, 512),
        (0, 513),
        (1, 511),
        (1, 512),
        (511, 1),
        (511, 2),
        (512, 512),
        (37, 3000),
        (1000, 1048),
        (0, 8192),
        (8191, 1),
        (4096, 4096),
    ] {
        assert_eq!(volume.seek(SeekFrom::Start(position)), Ok(position));
        let mut buf = vec![0xEEu8; len];
        assert_eq!(volume.read(&mut buf), Ok(len), "at {} for {}", position, len);
        assert_eq!(buf, expected(1024, position, len), "at {} for {}", position, len);
        assert_eq!(volume.stream_position(), position + len as u64);
    }
}

#[test]
fn consecutive_reads_continue_where_the_last_one_ended() {
    let mut volume = mounted(small_container());
    let mut all = Vec::new();
    for len in [10usize, 502, 1, 511, 1024, 600] {
        let mut buf = vec![0u8; len];
        assert_eq!(volume.read(&mut buf), Ok(len));
        all.extend_from_slice(&buf);
    }
    assert_eq!(all, expected(1024, 0, 2648));
    assert_eq!(volume.stream_position(), 2648);
}

#[test]
fn a_read_stops_at_the_end_of_the_data_area() {
    let mut bytes = small_container();
    bytes.extend_from_slice(&[0x55u8; 2048]);
    let mut volume = mounted(bytes);
    assert_eq!(volume.seek(SeekFrom::Start(8000)), Ok(8000));
    let mut buf = [0xEEu8; 300];
    assert_eq!(volume.read(&mut buf), Ok(192));
    assert_eq!(&buf[..192], &expected(1024, 8000, 192)[..]);
    assert_eq!(&buf[192..], &[0xEEu8; 108][..]);
    assert_eq!(volume.stream_position(), 8192);
    assert_eq!(volume.read(&mut buf), Ok(0));
    assert_eq!(volume.stream_position(), 8192);
}

#[test]
fn seek_moves_the_logical_position() {
    let mut volume = mounted(small_container());
    assert_eq!(volume.seek(SeekFrom::Start(100)), Ok(100));
    assert_eq!(volume.seek(SeekFrom::Current(50)), Ok(150));
    assert_eq!(volume.seek(SeekFrom::Current(-150)), Ok(0));
    assert_eq!(volume.seek(SeekFrom::Current(0)), Ok(0));
    assert_eq!(volume.seek(SeekFrom::Start(8192)), Ok(8192));
    assert_eq!(volume.seek(SeekFrom::End(0)), Ok(8192));
    assert_eq!(volume.seek(SeekFrom::End(192)), Ok(8000));
    assert_eq!(volume.seek(SeekFrom::End(8192)), Ok(0));
    assert_eq!(volume.stream_position(), 0);
}

#[test]
fn seek_refuses_positions_outside_the_data_area() {
    let mut volume = mounted(small_container());
    assert_eq!(volume.seek(SeekFrom::Start(4000)), Ok(4000));
    assert_eq!(volume.seek(SeekFrom::Start(8193)), Err(IoFailure::InvalidSeek));
    assert_eq!(volume.seek(SeekFrom::Start(u64::MAX)), Err(IoFailure::InvalidSeek));
    assert_eq!(volume.seek(SeekFrom::Current(4193)), Err(IoFailure::InvalidSeek));
    assert_eq!(volume.seek(SeekFrom::Current(-4001)), Err(IoFailure::InvalidSeek));
    assert_eq!(volume.seek(SeekFrom::Current(i64::MAX)), Err(IoFailure::InvalidSeek));
    assert_eq!(volume.seek(SeekFrom::Current(i64::MIN)), Err(IoFailure::InvalidSeek));
    assert_eq!(volume.seek(SeekFrom::End(-1)), Err(IoFailure::InvalidSeek));
    assert_eq!(volume.seek(SeekFrom::End(8193)), Err(IoFailure::InvalidSeek));
    assert_eq!(volume.seek(SeekFrom::End(i64::MIN)), Err(IoFailure::InvalidSeek));
    assert_eq!(volume.seek(SeekFrom::End(i64::MAX)), Err(IoFailure::InvalidSeek));
    assert_eq!(volume.stream_position(), 4000);
    assert_eq!(volume.seek(SeekFrom::Current(4192)), Ok(8192));
}

#[test]
fn seeking_and_skipping_reach_the_same_bytes() {
    for (position, len) in [(0u64, 100usize), (500, 24), (512, 512), (3000, 2000), (8192, 0)] {
        let mut by_seek = mounted(small_container());
        assert_eq!(by_seek.seek(SeekFrom::Start(position)), Ok(position));
        let mut sought = vec![0u8; len];
        assert_eq!(by_seek.read(&mut sought), Ok(len));

        let mut by_skip = mounted(small_container());
        assert_eq!(by_skip.seek(SeekFrom::Start(0)), Ok(0));
        let mut skipped = vec![0u8; position as usize];
        assert_eq!(by_skip.read(&mut skipped), Ok(position as usize));
        assert_eq!(by_skip.stream_position(), position);
        let mut read = vec![0u8; len];
        assert_eq!(by_skip.read(&mut read), Ok(len));

        assert_eq!(sought, read, "at {} for {}", position, len);
        assert_eq!(by_seek.stream_position(), by_skip.stream_position());
    }
}

#[test]
fn a_read_returns_what_was_written() {
    for (position, len) in [
        (0u64, 1usize),
        (0, 512),
        (500, 24),
        (100, 512),
        (511, 1026),
        (1024, 1024),
        (77, 5000),
        (0, 8192),
        (8191, 1),
    ] {
        let mut volume = mounted(small_container());
        let data: Vec<u8> = (0..len).map(|i| (i * 13 + 7) as u8).collect();
        assert_eq!(volume.seek(SeekFrom::Start(position)), Ok(position));
        assert_eq!(volume.write(&data), Ok(len), "at {} for {}", position, len);
        assert_eq!(volume.stream_position(), position + len as u64);
        assert_eq!(volume.seek(SeekFrom::Start(position)), Ok(position));
        let mut buf = vec![0u8; len];
        assert_eq!(volume.read(&mut buf), Ok(len));
        assert_eq!(buf, data, "at {} for {}", position, len);
    }
}

#[test]
fn a_write_keeps_the_plaintext_around_it() {
    let mut volume = mounted(small_container());
    let data = [0xABu8; 700];
    assert_eq!(volume.seek(SeekFrom::Start(900)), Ok(900));
    assert_eq!(volume.write(&data), Ok(700));
    assert_eq!(volume.seek(SeekFrom::Start(0)), Ok(0));
    let mut all = vec![0u8; 8192];
    assert_eq!(volume.read(&mut all), Ok(8192));
    let mut wanted = expected(1024, 0, 8192);
    wanted[900..1600].copy_from_slice(&data);
    assert_eq!(all, wanted);
}

#[test]
fn a_write_touches_only_its_sectors_and_stores_ciphertext() {
    let before = small_container();
    let mut volume = mounted(before.clone());
    let data = [0xABu8; 700];
    assert_eq!(volume.seek(SeekFrom::Start(900)), Ok(900));
    assert_eq!(volume.write(&data), Ok(700));
    assert_eq!(volume.flush(), Ok(()));
    let after = volume.unmount().into_inner();
    assert_eq!(after.len(), before.len());
    assert_eq!(&after[..1536], &before[..1536]);
    assert_eq!(&after[3072..], &before[3072..]);
    assert_ne!(&after[1536..3072], &before[1536..3072]);
    let cipher = engine_of(&master_keys());
    for index in 3u64..6 {
        let start = (index * 512) as usize;
        let mut unit = after[start..start + 512].to_vec();
        cipher.decrypt_sector(&mut unit, get_tweak_default(index as u128));
        for (i, byte) in unit.iter().enumerate() {
            let address = index * 512 + i as u64;
            let logical = address - 1024;
            let wanted = if (900..1600).contains(&logical) { 0xAB } else { pattern(address) };
            assert_eq!(*byte, wanted, "address {}", address);
        }
    }
    assert!(!after.windows(64).any(|window| window == &[0xABu8; 64][..]));
}

#[test]
fn what_was_written_is_there_after_a_new_mount() {
    let mut volume = mounted(small_container());
    let data: Vec<u8> = (0..1000usize).map(|i| (i % 251) as u8).collect();
    assert_eq!(volume.seek(SeekFrom::Start(4000)), Ok(4000));
    assert_eq!(volume.write(&data), Ok(1000));
    let store = volume.unmount();
    let mut again = UnmountedVolume::new(store)
        .mount_with_key(&KEY_FOR_PASSWORD1234)
        .expect("the header is untouched");
    assert_eq!(again.seek(SeekFrom::Start(3990)), Ok(3990));
    let mut buf = vec![0u8; 1020];
    assert_eq!(again.read(&mut buf), Ok(1020));
    assert_eq!(&buf[..10], &expected(1024, 3990, 10)[..]);
    assert_eq!(&buf[10..1010], &data[..]);
    assert_eq!(&buf[1010..], &expected(1024, 5000, 10)[..]);
}

#[test]
fn a_write_stops_at_the_end_of_the_data_area() {
    let mut bytes = small_container();
    bytes.extend_from_slice(&[0x55u8; 1024]);
    let mut volume = mounted(bytes);
    assert_eq!(volume.seek(SeekFrom::Start(8100)), Ok(8100));
    assert_eq!(volume.write(&[0x11u8; 200]), Ok(92));
    assert_eq!(volume.stream_position(), 8192);
    assert_eq!(volume.write(&[0x11u8; 200]), Ok(0));
    assert_eq!(volume.write(&[]), Ok(0));
    assert_eq!(volume.seek(SeekFrom::Start(8090)), Ok(8090));
    let mut buf = [0u8; 200];
    assert_eq!(volume.read(&mut buf), Ok(102));
    assert_eq!(&buf[..10], &expected(1024, 8090, 10)[..]);
    assert_eq!(&buf[10..102], &[0x11u8; 92][..]);
    let after = volume.unmount().into_inner();
    assert_eq!(&after[1024 + 8192..], &[0x55u8; 1024][..]);
}

#[test]
fn a_write_of_nothing_changes_nothing() {
    let before = small_container();
    let mut volume = mounted(before.clone());
    assert_eq!(volume.seek(SeekFrom::Start(33)), Ok(33));
    assert_eq!(volume.write(&[]), Ok(0));
    assert_eq!(volume.stream_position(), 33);
    assert_eq!(volume.unmount().into_inner(), before);
}

#[test]
fn a_data_area_off_the_sector_grid_is_read_and_written() {
    let bytes = container(700, 2048, 512, 3072, 1, 6);
    let mut volume = mounted(bytes.clone());
    let mut buf = vec![0u8; 2048];
    assert_eq!(volume.read(&mut buf), Ok(2048));
    assert_eq!(buf, expected(700, 0, 2048));
    assert_eq!(volume.seek(SeekFrom::Start(0)), Ok(0));
    assert_eq!(volume.write(&[0x77u8; 10]), Ok(10));
    let after = volume.unmount().into_inner();
    let mut unit = after[512..1024].to_vec();
    engine_of(&master_keys()).decrypt_sector(&mut unit, get_tweak_default(1));
    assert_eq!(&unit[..188], &expected(512, 0, 188)[..]);
    assert_eq!(&unit[188..198], &[0x77u8; 10][..]);
    assert_eq!(&unit[198..], &expected(710, 0, 314)[..]);
    assert_eq!(&after[..512], &bytes[..512]);
    assert_eq!(&after[1024..], &bytes[1024..]);
}

#[test]
fn a_sector_that_the_store_lacks_is_an_unexpected_end() {
    let bytes = container(700, 2048, 512, 2748, 1, 5);
    let mut volume = mounted(bytes.clone());
    let mut buf = vec![0u8; 2048];
    assert_eq!(volume.seek(SeekFrom::Start(100)), Ok(100));
    assert_eq!(volume.read(&mut buf), Err(IoFailure::UnexpectedEnd));
    assert_eq!(volume.stream_position(), 100);
    assert_eq!(volume.write(&buf), Err(IoFailure::UnexpectedEnd));
    assert_eq!(volume.stream_position(), 100);
    let mut within = vec![0u8; 1760];
    assert_eq!(volume.read(&mut within), Ok(1760));
    assert_eq!(within, expected(700, 100, 1760));
    assert_eq!(volume.read(&mut [0u8; 1]), Err(IoFailure::UnexpectedEnd));
    assert_eq!(volume.stream_position(), 1860);
}

#[test]
fn sectors_of_another_length() {
    let bytes = container(4096, 16384, 4096, 4096 + 16384, 1, 5);
    let mut volume = mounted(bytes);
    assert_eq!(volume.seek(SeekFrom::Start(4000)), Ok(4000));
    let mut buf = vec![0u8; 200];
    assert_eq!(volume.read(&mut buf), Ok(200));
    assert_eq!(buf, expected(4096, 4000, 200));
    assert_eq!(volume.seek(SeekFrom::Start(4090)), Ok(4090));
    assert_eq!(volume.write(&[9u8; 12]), Ok(12));
    assert_eq!(volume.seek(SeekFrom::Start(4080)), Ok(4080));
    let mut buf = vec![0u8; 32];
    assert_eq!(volume.read(&mut buf), Ok(32));
    assert_eq!(&buf[..10], &expected(4096, 4080, 10)[..]);
    assert_eq!(&buf[10..22], &[9u8; 12][..]);
    assert_eq!(&buf[22..], &expected(4096, 4102, 10)[..]);

    let small = container(512, 160, 16, 672, 32, 42);
    let mut volume = mounted(small);
    let mut buf = vec![0u8; 160];
    assert_eq!(volume.read(&mut buf), Ok(160));
    assert_eq!(buf, expected(512, 0, 160));
}

/// A store that works until it has served a number of calls, then fails.
struct Failing {
    inner: MemoryStore,
    calls_left: usize,
}

impl Failing {
    fn spend(&mut self) -> Result<(), IoFailure> {
        if self.calls_left == 0 {
            return Err(IoFailure::Device("the device is gone".to_string()));
        }
        self.calls_left -= 1;
        Ok(())
    }
}

impl BackingStore for Failing {
    fn read_exact(&mut self, buf: &mut [u8]) -> Result<(), IoFailure> {
        self.spend()?;
        self.inner.read_exact(buf)
    }

    fn write_all(&mut self, data: &[u8]) -> Result<(), IoFailure> {
        self.spend()?;
        self.inner.write_all(data)
    }

    fn seek(&mut self, to: SeekFrom) -> Result<u64, IoFailure> {
        self.spend()?;
        self.inner.seek(to)
    }

    fn flush(&mut self) -> Result<(), IoFailure> {
        self.spend()?;
        self.inner.flush()
    }
}

#[test]
fn a_store_that_fails_during_mount_is_no_volume() {
    for calls in 0..4 {
        let store = Failing { inner: MemoryStore::new(small_container()), calls_left: calls };
        assert!(
            matches!(
                UnmountedVolume::new(store).mount_with_key(&KEY_FOR_PASSWORD1234),
                Err(Error::InvalidVolume)
            ),
            "after {} calls",
            calls
        );
    }
    let store = Failing { inner: MemoryStore::new(small_container()), calls_left: 4 };
    assert!(UnmountedVolume::new(store).mount_with_key(&KEY_FOR_PASSWORD1234).is_ok());
}

#[test]
fn a_store_that_fails_after_mount_passes_its_failure_on() {
    let gone = || IoFailure::Device("the device is gone".to_string());
    let store = Failing { inner: MemoryStore::new(small_container()), calls_left: 6 };
    let mut volume = UnmountedVolume::new(store)
        .mount_with_key(&KEY_FOR_PASSWORD1234)
        .expect("four calls are enough to mount");
    let mut buf = [0u8; 512];
    assert_eq!(volume.read(&mut buf), Ok(512));
    assert_eq!(volume.stream_position(), 512);
    assert_eq!(volume.read(&mut buf), Err(gone()));
    assert_eq!(volume.stream_position(), 512);
    assert_eq!(volume.write(&buf), Err(gone()));
    assert_eq!(volume.stream_position(), 512);
    assert_eq!(volume.flush(), Err(gone()));
    assert_eq!(volume.seek(SeekFrom::Start(0)), Ok(0));
    assert_eq!(volume.read(&mut []), Ok(0));
}

#[test]
fn flush_reaches_the_store() {
    let store = Failing { inner: MemoryStore::new(small_container()), calls_left: 5 };
    let mut volume = UnmountedVolume::new(store)
        .mount_with_key(&KEY_FOR_PASSWORD1234)
        .expect("four calls are enough to mount");
    assert_eq!(volume.flush(), Ok(()));
    assert!(matches!(volume.flush(), Err(IoFailure::Device(_))));
}

use nudb::bucket::{Bucket, BucketEntry};
use nudb::codec::{get_be, put_be, put_le, read_u48, write_u48};
use nudb::error::Error;
use nudb::format::{DatHeader, KeyHeader};
use nudb::hash::{hash48, pepper};
use nudb::seed::{rand_u64, scramble, seed_at};
use nudb::table::StoreOptions;

const HEADER: KeyHeader = KeyHeader {
    version: 2,
    uid: 0x0102_0304_0506_0708,
    appnum: 7,
    key_size: 32,
    salt: 0x1112_1314_1516_1718,
    pepper: 0x2122_2324_2526_2728,
    block_size: 128,
    load_factor: 0x8000,
    bucket_count: 3,
    key_count: 5,
};

#[test]
fn integers_are_big_endian() {
    let mut buf = Vec::new();
    put_be(&mut buf, 0x0102_0304, 4);
    put_be(&mut buf, 0xff, 2);
    assert_eq!(buf, vec![1, 2, 3, 4, 0, 0xff]);
    assert_eq!(get_be(&buf, 1, 3), 0x02_0304);
    let mut buf = Vec::new();
    put_le(&mut buf, 0x0102_0304, 4);
    assert_eq!(buf, vec![4, 3, 2, 1]);
}

#[test]
fn integers_of_48_bits_are_read_back() {
    assert_eq!(write_u48(0x0102_0304_0506), vec![1, 2, 3, 4, 5, 6]);
    assert_eq!(read_u48(&[1, 2, 3, 4, 5, 6]), 0x0102_0304_0506);
    for value in [0, 1, 255, 256, 0xffff_ffff_ffff] {
        assert_eq!(read_u48(&write_u48(value)), value);
    }
}

#[test]
fn the_data_header_has_92_bytes() {
    let bytes = DatHeader { version: 2, uid: 13, appnum: 7, key_size: 8 }.write_to();
    assert_eq!(bytes.len(), 92);
    assert_eq!(&bytes[..8], b"nudb.dat");
    assert_eq!(&bytes[8..10], &[0, 2]);
    assert_eq!(&bytes[10..18], &13u64.to_be_bytes());
    assert_eq!(&bytes[18..26], &7u64.to_be_bytes());
    assert_eq!(&bytes[26..28], &[0, 8]);
    assert_eq!(&bytes[28..], &[0; 64]);
}

#[test]
fn the_key_header_fills_a_block() {
    let bytes = HEADER.write_to();
    assert_eq!(bytes.len(), 128);
    assert_eq!(&bytes[..8], b"nudb.key");
    assert_eq!(&bytes[10..18], &[1, 2, 3, 4, 5, 6, 7, 8]);
    assert_eq!(&bytes[28..36], &[0x11, 0x12, 0x13, 0x14, 0x15, 0x16, 0x17, 0x18]);
    assert_eq!(&bytes[44..48], &[0, 128, 0x80, 0]);
    assert_eq!(&bytes[48..64], &[0, 0, 0, 0, 0, 0, 0, 3, 0, 0, 0, 0, 0, 0, 0, 5]);
    assert_eq!(&bytes[64..], &[0; 64]);
    assert_eq!(KeyHeader::read_from(&bytes), Ok(HEADER));
    assert_eq!(KeyHeader::read_from(&bytes[..104]), Ok(HEADER));
}

#[test]
fn key_headers_that_are_none() {
    let mut bytes = HEADER.write_to();
    assert_eq!(KeyHeader::read_from(&bytes[..103]), Err(Error::UnexpectedEof));
    bytes[8] = 1;
    assert_eq!(KeyHeader::read_from(&bytes), Err(Error::WrongVersion));
    bytes[5] = b'd';
    assert_eq!(KeyHeader::read_from(&bytes), Err(Error::NotKeyFile));
}

#[test]
fn buckets_lie_after_the_header() {
    assert_eq!(HEADER.bucket_capacity(), 6);
    assert_eq!(HEADER.bucket_offset(0), 128);
    assert_eq!(HEADER.bucket_offset(2), 384);
    assert_eq!(KeyHeader { block_size: 4096, ..HEADER }.bucket_capacity(), 227);
    assert_eq!(KeyHeader { block_size: 104, ..HEADER }.bucket_capacity(), 5);
    assert_eq!(KeyHeader { block_size: 103, ..HEADER }.bucket_capacity(), 0);
}

#[test]
fn a_bucket_is_read_back() {
    let mut bucket = Bucket::new();
    bucket.spill = 0x0102_0304_0506;
    bucket.insert(BucketEntry { offset: 300, size: 4, hash: 9 });
    bucket.insert(BucketEntry { offset: 200, size: 5, hash: 3 });
    bucket.insert(BucketEntry { offset: 100, size: 6, hash: 9 });
    let bytes = bucket.to_bytes(104);
    assert_eq!(bytes.len(), 104);
    assert_eq!(&bytes[..8], &[0, 3, 1, 2, 3, 4, 5, 6]);
    assert_eq!(&bytes[8..26], &[0, 0, 0, 0, 0, 200, 0, 0, 0, 0, 0, 5, 0, 0, 0, 0, 0, 3]);
    assert_eq!(&bytes[26..44], &[0, 0, 0, 0, 0, 100, 0, 0, 0, 0, 0, 6, 0, 0, 0, 0, 0, 9]);
    assert_eq!(&bytes[44..62], &[0, 0, 0, 0, 1, 44, 0, 0, 0, 0, 0, 4, 0, 0, 0, 0, 0, 9]);
    assert_eq!(&bytes[62..], &[0; 42]);
    let read = Bucket::from_bytes(&bytes).unwrap();
    assert_eq!(read.spill, bucket.spill);
    assert_eq!(read.entries, bucket.entries);
}

#[test]
fn blocks_that_hold_no_bucket() {
    assert!(matches!(Bucket::from_bytes(&[0; 7]), Err(Error::InvalidBucket)));
    assert!(matches!(Bucket::from_bytes(&[0, 1, 0, 0, 0, 0, 0, 0]), Err(Error::InvalidBucket)));
    assert!(Bucket::from_bytes(&[0; 8]).unwrap().entries.is_empty());
}

#[test]
fn entries_hold_the_upper_48_bits_of_a_hash() {
    assert_eq!(hash48(0x0123_4567_89ab_cdef), 0x0123_4567_89ab);
    assert_eq!(hash48(u64::MAX), 0xffff_ffff_ffff);
    assert_eq!(hash48(0xffff), 0);
}

#[test]
fn the_pepper_hashes_the_salt() {
    for salt in [0, 17, 0x0102_0304_0506_0708, u64::MAX] {
        assert_eq!(pepper(salt), xxhash_rust::xxh64::xxh64(&salt.to_le_bytes(), 0));
        assert_ne!(pepper(salt), salt);
    }
}

#[test]
fn clock_readings_are_spread() {
    assert_eq!(scramble(0), 0);
    assert_eq!(scramble(1), 0x7feb_cafb);
    assert_eq!(scramble(0x2000), 0xffd_f96b_180c);
    assert_eq!(scramble(1_700_000_000_123_456_789), 0x36fc_c5e8_6756_60b7);
}

#[test]
fn only_the_low_bits_of_a_clock_reading_count() {
    assert_eq!(seed_at(Some(1)), 0x7feb_cafb);
    assert_eq!(seed_at(Some((1 << 64) + 1)), 0x7feb_cafb);
    assert_eq!(seed_at(None), 0);
}

#[test]
fn the_clock_gives_numbers() {
    assert_ne!(rand_u64(), 0);
}

#[test]
fn default_options() {
    let options = StoreOptions::default();
    assert_eq!(options.key_size, 32);
    assert_eq!(options.block_size, 4096);
    assert_eq!(options.appnum, 1);
    assert_eq!(options.load_factor, 32768);
}

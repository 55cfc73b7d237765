use nudb::error::Error;
use nudb::{Store, StoreOptions};

fn numbered(i: u32) -> [u8; 32] {
    let mut key = [0u8; 32];
    key[..4].copy_from_slice(&i.to_le_bytes());
    key
}

fn reopen(store: Store) -> Store {
    let (dat, key) = store.into_files();
    Store::open(dat, key).ok().unwrap()
}

#[test]
fn create_and_open() {
    let store = Store::create(StoreOptions::default());
    assert_eq!(store.key_count(), 0);
    assert_eq!(store.bucket_count(), 1);
    let store = reopen(store);
    assert_eq!(store.key_count(), 0);
}

#[test]
fn insert_and_fetch() {
    let mut store = Store::create(StoreOptions::default());
    let key = [0x42u8; 32];
    let value = b"hello world";
    assert!(store.insert(&key, value).unwrap());
    assert!(!store.insert(&key, value).unwrap()); // duplicate

    let fetched = store.fetch(&key).unwrap().unwrap();
    assert_eq!(fetched, value);
    assert_eq!(store.key_count(), 1);
}

#[test]
fn fetch_missing() {
    let store = Store::create(StoreOptions::default());
    let key = [0xAB; 32];
    assert!(store.fetch(&key).unwrap().is_none());
}

#[test]
fn many_inserts() {
    let mut store = Store::create(StoreOptions::default());
    for i in 0u32..1000 {
        let value = format!("value_{i}");
        assert!(store.insert(&numbered(i), value.as_bytes()).unwrap());
    }

    assert_eq!(store.key_count(), 1000);
    assert!(store.bucket_count() > 1, "should have split buckets");

    for i in 0u32..1000 {
        let value = store.fetch(&numbered(i)).unwrap().expect("missing key");
        assert_eq!(value, format!("value_{i}").as_bytes());
    }
}

#[test]
fn reopen_persists() {
    let mut store = Store::create(StoreOptions::default());
    for i in 0u32..100 {
        store.insert(&numbered(i), b"data").unwrap();
    }
    let store = reopen(store);
    assert_eq!(store.key_count(), 100);
    for i in 0u32..100 {
        assert!(
            store.fetch(&numbered(i)).unwrap().is_some(),
            "key {i} missing after reopen"
        );
    }
}

#[test]
fn upsert_updates_value() {
    let mut store = Store::create(StoreOptions::default());
    let key = [0x01; 32];
    store.upsert(&key, b"version1").unwrap();
    assert_eq!(store.fetch(&key).unwrap().unwrap(), b"version1");

    store.upsert(&key, b"version2").unwrap();
    assert_eq!(store.fetch(&key).unwrap().unwrap(), b"version2");

    // Key count should still be 1 (update, not new insert)
    assert_eq!(store.key_count(), 1);
}

#[test]
fn remove_key() {
    let mut store = Store::create(StoreOptions::default());
    let key = [0x02; 32];
    store.insert(&key, b"data").unwrap();
    assert!(store.contains(&key).unwrap());

    assert!(store.remove(&key).unwrap());
    assert!(!store.contains(&key).unwrap());
    assert_eq!(store.key_count(), 0);

    // Remove non-existent
    assert!(!store.remove(&key).unwrap());
}

#[test]
fn upsert_many() {
    let mut store = Store::create(StoreOptions::default());

    // Insert 500 keys
    for i in 0u32..500 {
        store.upsert(&numbered(i), &i.to_le_bytes()).unwrap();
    }
    assert_eq!(store.key_count(), 500);

    // Update all 500
    for i in 0u32..500 {
        let new_val = (i * 100).to_le_bytes();
        store.upsert(&numbered(i), &new_val).unwrap();
    }
    assert_eq!(store.key_count(), 500); // Still 500, not 1000

    // Verify updated values
    for i in 0u32..500 {
        let val = store.fetch(&numbered(i)).unwrap().unwrap();
        assert_eq!(val, (i * 100).to_le_bytes());
    }
}

const TINY: StoreOptions = StoreOptions {
    key_size: 8,
    block_size: 104,
    appnum: 7,
    load_factor: 65535,
};

const SALT: u64 = 17;

/// Keys whose hashes are multiples of `modulus`: they share a bucket until
/// there are more buckets than that.
fn crowded(count: usize, modulus: u64) -> Vec<[u8; 8]> {
    let mut keys = Vec::new();
    let mut i: u64 = 0;
    while keys.len() < count {
        let key = i.wrapping_mul(0x9e37_79b9_7f4a_7c15).to_be_bytes();
        if xxhash_rust::xxh64::xxh64(&key, SALT) % modulus == 0 {
            keys.push(key);
        }
        i += 1;
    }
    keys
}

#[test]
fn two_thousand_records() {
    let options = StoreOptions {
        key_size: 8,
        block_size: 512,
        appnum: 7,
        load_factor: 32768,
    };
    let mut store = Store::create_with(options, 13, SALT);
    for i in 0..2_000u64 {
        let key = i.wrapping_mul(0x9e37_79b9_7f4a_7c15).to_be_bytes();
        let value = format!("rust-value-{i}");
        assert_eq!(store.insert(&key, value.as_bytes()), Ok(true));
        if i % 97 == 0 {
            store = reopen(store);
        }
    }
    let store = reopen(store);
    assert_eq!(store.key_count(), 2_000);
    for i in 0..2_000u64 {
        let key = i.wrapping_mul(0x9e37_79b9_7f4a_7c15).to_be_bytes();
        assert_eq!(
            store.fetch(&key),
            Ok(Some(format!("rust-value-{i}").into_bytes()))
        );
    }
}

#[test]
fn spilled_keys_are_found() {
    let keys = crowded(23, 1024);
    let mut store = Store::create_with(TINY, 13, SALT);
    for (i, key) in keys.iter().enumerate() {
        assert_eq!(store.insert(key, &[i as u8]), Ok(true));
        for (j, earlier) in keys[..=i].iter().enumerate() {
            assert_eq!(store.fetch(earlier), Ok(Some(vec![j as u8])));
            assert_eq!(store.insert(earlier, b"again"), Ok(false));
        }
        for later in &keys[i + 1..] {
            assert_eq!(store.fetch(later), Ok(None));
        }
        assert_eq!(store.key_count(), i as u64 + 1);
    }
    let store = reopen(store);
    for (i, key) in keys.iter().enumerate() {
        assert_eq!(store.fetch(key), Ok(Some(vec![i as u8])));
    }
}

#[test]
fn spilled_keys_take_other_values() {
    let keys = crowded(23, 1024);
    let mut store = Store::create_with(TINY, 13, SALT);
    for key in &keys {
        assert_eq!(store.upsert(key, b"old"), Ok(()));
    }
    for (i, key) in keys.iter().enumerate() {
        assert_eq!(store.upsert(key, &[i as u8; 3]), Ok(()));
        for (j, other) in keys.iter().enumerate() {
            let expected = if j <= i { vec![j as u8; 3] } else { b"old".to_vec() };
            assert_eq!(store.fetch(other), Ok(Some(expected)));
        }
    }
    assert_eq!(store.key_count(), 23);
}

#[test]
fn spilled_keys_are_removed() {
    let keys = crowded(23, 1024);
    let mut store = Store::create_with(TINY, 13, SALT);
    for (i, key) in keys.iter().enumerate() {
        store.insert(key, &[i as u8]).unwrap();
    }
    for (i, key) in keys.iter().enumerate() {
        assert_eq!(store.remove(key), Ok(true));
        assert_eq!(store.remove(key), Ok(false));
        assert_eq!(store.key_count(), 22 - i as u64);
        for (j, other) in keys.iter().enumerate() {
            let expected = if j <= i { None } else { Some(vec![j as u8]) };
            assert_eq!(store.fetch(other), Ok(expected));
        }
    }
    for (i, key) in keys.iter().enumerate() {
        assert_eq!(store.insert(key, &[i as u8]), Ok(true));
    }
    assert_eq!(store.key_count(), 23);
}

#[test]
fn inserting_only_appends() {
    let mut store = Store::create_with(TINY, 13, SALT);
    for i in 0..60u64 {
        let (dat, key) = store.into_files();
        let before = dat.clone();
        store = Store::open(dat, key).ok().unwrap();
        store.insert(&i.to_be_bytes(), &[7; 5]).unwrap();
        let (dat, key) = store.into_files();
        assert_eq!(&dat[..before.len()], &before[..]);
        assert!(dat.len() >= before.len() + 6 + 8 + 5);
        store = Store::open(dat, key).ok().unwrap();
    }
}

#[test]
fn dead_values_stay_in_the_data_file() {
    let mut store = Store::create_with(TINY, 13, SALT);
    store.insert(&[1; 8], b"first").unwrap();
    store.upsert(&[1; 8], b"second").unwrap();
    store.remove(&[1; 8]).unwrap();
    let (dat, _) = store.into_files();
    assert_eq!(dat.len(), 92 + (6 + 8 + 5) + (6 + 8 + 6));
    assert_eq!(&dat[92..98], &[0, 0, 0, 0, 0, 13]);
    assert_eq!(&dat[98..106], &[1; 8]);
    assert_eq!(&dat[106..111], b"first");
    assert_eq!(&dat[111..117], &[0, 0, 0, 0, 0, 14]);
    assert_eq!(&dat[125..131], b"second");
}

#[test]
fn empty_values_are_values() {
    let mut store = Store::create_with(TINY, 13, SALT);
    assert_eq!(store.insert(&[1; 8], b""), Ok(true));
    assert_eq!(store.fetch(&[1; 8]), Ok(Some(Vec::new())));
    assert_eq!(store.contains(&[1; 8]), Ok(true));
}

#[test]
fn a_bucket_is_split_at_the_load_factor() {
    // Five places to a bucket of 104 bytes; half load is passed by the third
    // key, then by the sixth.
    let options = StoreOptions { load_factor: 32768, ..TINY };
    let mut store = Store::create_with(options, 13, SALT);
    let mut counts = Vec::new();
    for i in 0..8u64 {
        store.insert(&i.to_be_bytes(), b"v").unwrap();
        counts.push(store.bucket_count());
    }
    assert_eq!(counts, vec![1, 1, 2, 2, 2, 3, 3, 4]);
    assert_eq!(store.key_size(), 8);
}

#[test]
fn a_new_store_has_the_salt_and_pepper_it_was_given() {
    let store = Store::create_with(TINY, 13, SALT);
    let (dat, key) = store.into_files();
    assert_eq!(dat.len(), 92);
    assert_eq!(key.len(), 208);
    assert_eq!(&dat[..8], b"nudb.dat");
    assert_eq!(&key[..8], b"nudb.key");
    assert_eq!(&key[8..10], &[0, 2]);
    assert_eq!(&key[10..18], &13u64.to_be_bytes());
    assert_eq!(&key[18..26], &7u64.to_be_bytes());
    assert_eq!(&key[26..28], &[0, 8]);
    assert_eq!(&key[28..36], &SALT.to_be_bytes());
    let pepper = xxhash_rust::xxh64::xxh64(&SALT.to_le_bytes(), 0);
    assert_eq!(&key[36..44], &pepper.to_be_bytes());
    assert_eq!(&key[44..46], &[0, 104]);
    assert_eq!(&key[46..48], &[0xff, 0xff]);
    assert_eq!(&key[104..], &[0; 104]);
}

#[test]
fn an_entry_holds_the_upper_bits_of_its_hash() {
    let mut store = Store::create_with(TINY, 13, SALT);
    store.insert(&[9; 8], b"value").unwrap();
    let hash = xxhash_rust::xxh64::xxh64(&[9; 8], SALT);
    let (_, key) = store.into_files();
    assert_eq!(&key[104..106], &[0, 1]);
    assert_eq!(&key[106..112], &[0; 6]);
    assert_eq!(&key[112..118], &[0, 0, 0, 0, 0, 92]);
    assert_eq!(&key[118..124], &[0, 0, 0, 0, 0, 5]);
    assert_eq!(&key[124..130], &(hash >> 16).to_be_bytes()[2..]);
}

#[test]
fn files_that_hold_no_store_are_refused() {
    let refusal = |dat: &[u8], key: &[u8]| Store::open(dat.to_vec(), key.to_vec()).err();
    assert_eq!(refusal(b"", b""), Some(Error::UnexpectedEof));
    assert_eq!(refusal(b"", &[0; 104]), Some(Error::NotKeyFile));
    let (dat, mut key) = Store::create_with(TINY, 13, SALT).into_files();
    assert_eq!(refusal(&dat, &key), None);
    assert_eq!(refusal(&dat, &key[..103]), Some(Error::UnexpectedEof));
    key[9] = 1;
    assert_eq!(refusal(&dat, &key), Some(Error::WrongVersion));
    key[9] = 2;
    key[48] = 0x80;
    assert_eq!(refusal(&dat, &key), Some(Error::InvalidHeader));
    key[55] = 0;
    assert_eq!(refusal(&dat, &key), None);
}

#[test]
fn a_header_without_buckets_serves_the_first_one() {
    let mut store = Store::create_with(TINY, 13, SALT);
    store.insert(&[1; 8], b"value").unwrap();
    let (dat, mut key) = store.into_files();
    key[55] = 0; // buckets
    let store = Store::open(dat.clone(), key.clone()).ok().unwrap();
    assert_eq!(store.bucket_count(), 0);
    assert_eq!(store.fetch(&[1; 8]), Ok(Some(b"value".to_vec())));
    assert_eq!(store.contains(&[2; 8]), Ok(false));
    // There is no first bucket to read.
    let store = Store::open(dat, key[..104].to_vec()).ok().unwrap();
    assert_eq!(store.fetch(&[1; 8]), Err(Error::UnexpectedEof));
}

#[test]
fn a_header_without_buckets_is_split_over_itself() {
    for i in 0..8u64 {
        let (dat, mut key) = Store::create_with(TINY, 13, SALT).into_files();
        key[55] = 0; // buckets
        let mut store = Store::open(dat, key).ok().unwrap();
        assert_eq!(store.insert(&i.to_be_bytes(), b"v"), Ok(true));
        assert_eq!(store.bucket_count(), 1);
        assert_eq!(store.key_count(), 1);
        // The entries that move are written over those that stay.
        if xxhash_rust::xxh64::xxh64(&i.to_be_bytes(), SALT) % 2 == 0 {
            assert_eq!(store.fetch(&i.to_be_bytes()), Ok(None));
        } else {
            assert_eq!(store.fetch(&i.to_be_bytes()), Err(Error::UnexpectedEof));
        }
    }
}

#[test]
fn blocks_smaller_than_the_header_serve_no_key() {
    let options = StoreOptions { block_size: 103, ..TINY };
    let mut store = Store::create_with(options, 13, SALT);
    assert_eq!(store.contains(&[0; 8]), Err(Error::InvalidHeader));
    assert_eq!(store.fetch(&[0; 8]), Err(Error::InvalidHeader));
    assert_eq!(store.insert(&[0; 8], b"v"), Err(Error::InvalidHeader));
    assert_eq!(store.upsert(&[0; 8], b"v"), Err(Error::InvalidHeader));
    assert_eq!(store.remove(&[0; 8]), Err(Error::InvalidHeader));
}

#[test]
fn a_record_stays_behind_where_its_key_cannot_be_looked_for() {
    let mut store = Store::create_with(TINY, 13, SALT);
    store.insert(&[1; 8], b"v").unwrap();
    let (mut dat, key) = store.into_files();
    dat[97] = 7; // the record is shorter than a key
    let before = dat.clone();
    let mut store = Store::open(dat, key.clone()).ok().unwrap();
    assert_eq!(store.upsert(&[1; 8], b"other"), Err(Error::RecordTooSmall));
    let (dat, after) = store.into_files();
    assert_eq!(after, key);
    assert_eq!(&dat[..before.len()], &before[..]);
    assert_eq!(&dat[before.len()..], b"\0\0\0\0\0\x0d\x01\x01\x01\x01\x01\x01\x01\x01other");

    // Where the bucket cannot be read, nothing is appended.
    let mut store = Store::open(before.clone(), key[..207].to_vec()).ok().unwrap();
    assert_eq!(store.upsert(&[1; 8], b"other"), Err(Error::UnexpectedEof));
    assert_eq!(store.insert(&[1; 8], b"other"), Err(Error::UnexpectedEof));
    assert_eq!(store.into_files().0, before);
}

#[test]
fn a_truncated_key_file_is_noticed() {
    let (dat, key) = Store::create_with(TINY, 13, SALT).into_files();
    let store = Store::open(dat, key[..207].to_vec()).ok().unwrap();
    assert_eq!(store.fetch(&[0; 8]), Err(Error::UnexpectedEof));
}

#[test]
fn a_bucket_with_too_many_entries_is_noticed() {
    let (dat, mut key) = Store::create_with(TINY, 13, SALT).into_files();
    key[105] = 6;
    let store = Store::open(dat, key).ok().unwrap();
    assert_eq!(store.fetch(&[0; 8]), Err(Error::InvalidBucket));
}

#[test]
fn a_record_shorter_than_a_key_is_noticed() {
    let mut store = Store::create_with(TINY, 13, SALT);
    store.insert(&[1; 8], b"v").unwrap();
    let (mut dat, key) = store.into_files();
    dat[97] = 7;
    let mut store = Store::open(dat, key).ok().unwrap();
    assert_eq!(store.fetch(&[1; 8]), Err(Error::RecordTooSmall));
    assert_eq!(store.remove(&[1; 8]), Err(Error::RecordTooSmall));
}

#[test]
fn spill_records_in_a_ring_are_noticed() {
    let (mut dat, mut key) = Store::create_with(TINY, 13, SALT).into_files();
    let at = dat.len() as u64;
    dat.extend_from_slice(&[0; 6]);
    dat.extend_from_slice(&104u16.to_be_bytes());
    let mut block = vec![0u8; 104];
    block[2..8].copy_from_slice(&at.to_be_bytes()[2..]);
    dat.extend_from_slice(&block);
    key[106..112].copy_from_slice(&at.to_be_bytes()[2..]);
    let store = Store::open(dat, key).ok().unwrap();
    assert_eq!(store.fetch(&[0; 8]), Err(Error::EndlessChain));
}

#[test]
fn a_full_count_of_keys_takes_no_more() {
    let (dat, mut key) = Store::create_with(TINY, 13, SALT).into_files();
    key[56..64].copy_from_slice(&[0xff; 8]);
    let mut store = Store::open(dat, key).ok().unwrap();
    assert_eq!(store.insert(&[0; 8], b"v"), Err(Error::KeyFileFull));
    assert_eq!(store.fetch(&[0; 8]), Ok(None));
}

#[test]
fn a_split_past_the_end_fills_up_with_zeros() {
    let (dat, mut key) = Store::create_with(TINY, 13, SALT).into_files();
    key[55] = 4; // buckets
    key[63] = 40; // keys
    for i in 0..100u64 {
        // A key of the bucket that is there.
        if xxhash_rust::xxh64::xxh64(&i.to_be_bytes(), SALT) % 4 == 0 {
            let mut store = Store::open(dat, key).ok().unwrap();
            assert_eq!(store.insert(&i.to_be_bytes(), b"v"), Ok(true));
            assert_eq!(store.bucket_count(), 5);
            assert_eq!(store.fetch(&i.to_be_bytes()), Ok(Some(b"v".to_vec())));
            let (_, key) = store.into_files();
            assert_eq!(key.len(), 6 * 104);
            return;
        }
    }
    panic!("no key of the first bucket");
}

#[test]
fn checking_for_a_key_reads_no_value() {
    let mut store = Store::create_with(TINY, 13, SALT);
    store.insert(&[1; 8], b"first").unwrap();
    store.insert(&[2; 8], b"second").unwrap();
    let (dat, key) = store.into_files();
    // The last record ends inside its value, or right after its key.
    for cut in 1..=6 {
        let store = Store::open(dat[..dat.len() - cut].to_vec(), key.clone()).ok().unwrap();
        assert_eq!(store.contains(&[2; 8]), Ok(true));
        assert_eq!(store.contains(&[1; 8]), Ok(true));
        assert_eq!(store.contains(&[3; 8]), Ok(false));
        assert_eq!(store.fetch(&[2; 8]), Err(Error::UnexpectedEof));
    }
    // It ends inside its key.
    let store = Store::open(dat[..dat.len() - 7].to_vec(), key.clone()).ok().unwrap();
    assert_eq!(store.contains(&[2; 8]), Err(Error::UnexpectedEof));
    // A size below that of a key is noticed all the same.
    let mut small = dat;
    small[97] = 7;
    let store = Store::open(small, key).ok().unwrap();
    assert_eq!(store.contains(&[1; 8]), Err(Error::RecordTooSmall));
}

#[test]
fn removing_a_key_reads_no_value() {
    let mut store = Store::create_with(TINY, 13, SALT);
    store.insert(&[1; 8], b"value").unwrap();
    let (dat, key) = store.into_files();
    let mut store = Store::open(dat[..dat.len() - 3].to_vec(), key).ok().unwrap();
    assert_eq!(store.remove(&[1; 8]), Ok(true));
    assert_eq!(store.contains(&[1; 8]), Ok(false));
    assert_eq!(store.key_count(), 0);
}

/// The offsets of the value records and of the spill records.
fn offsets(dat: &[u8]) -> (Vec<usize>, Vec<usize>) {
    let mut values = Vec::new();
    let mut spills = Vec::new();
    let mut at = 92;
    while at < dat.len() {
        let size = dat[at..at + 6].iter().fold(0, |size, byte| size * 256 + *byte as usize);
        if size == 0 {
            spills.push(at);
            at += 8 + dat[at + 6] as usize * 256 + dat[at + 7] as usize;
        } else {
            values.push(at);
            at += 6 + size;
        }
    }
    assert_eq!(at, dat.len());
    (values, spills)
}

#[test]
fn every_value_can_be_reached() {
    let mut store = Store::create_with(TINY, 13, SALT);
    for key in crowded(23, 1024) {
        store.insert(&key, b"crowded").unwrap();
        store.insert(&key, b"again").unwrap();
    }
    for i in 0..200u64 {
        store.insert(&i.to_le_bytes(), &i.to_be_bytes()[7..]).unwrap();
    }
    let count = store.key_count();
    let (dat, key) = store.into_files();
    let store = Store::open(dat.clone(), key).ok().unwrap();
    let (values, spills) = offsets(&dat);
    assert!(!spills.is_empty());
    assert_eq!(values.len() as u64, count);
    let mut keys = Vec::new();
    for at in values {
        let size = dat[at + 5] as usize;
        let key = dat[at + 6..at + 14].to_vec();
        assert_eq!(store.fetch(&key), Ok(Some(dat[at + 14..at + 6 + size].to_vec())));
        assert!(!keys.contains(&key));
        keys.push(key);
    }
}

#[test]
fn only_a_spill_record_is_written_over() {
    let keys = crowded(13, 1024);
    let mut store = Store::create_with(TINY, 13, SALT);
    for key in &keys {
        store.insert(key, b"old").unwrap();
    }
    for (i, key) in keys.iter().enumerate() {
        let (before, index) = store.into_files();
        store = Store::open(before.clone(), index).ok().unwrap();
        if i % 2 == 0 {
            store.upsert(key, b"another").unwrap();
        } else {
            store.remove(key).unwrap();
        }
        let (after, index) = store.into_files();
        store = Store::open(after.clone(), index).ok().unwrap();
        let changed: Vec<usize> = (0..before.len()).filter(|x| before[*x] != after[*x]).collect();
        if let Some(first) = changed.first() {
            let (_, spills) = offsets(&before);
            let page = spills.iter().rev().find(|page| *page <= first).unwrap();
            assert!(*changed.last().unwrap() < page + 8 + 104);
        }
    }
}

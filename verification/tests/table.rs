use nudb::error::Error;
use nudb::format::{KeyHeader, LIMIT48};
use nudb::lookup::same_bytes;
use nudb::search::{search, sort_out};
use nudb::table::{StoreOptions, Table, MAX_FILE_SIZE};
use nudb::walk::{FileKind, Request};
use nudb::write::{append_record, encode_record};

const OPTIONS: StoreOptions = StoreOptions {
    key_size: 4,
    block_size: 104,
    appnum: 1,
    load_factor: 32768,
};

#[test]
fn a_lookup_says_what_it_reads() {
    let table = Table::create(&OPTIONS, 1, 2);
    let mut lookup = table.lookup_hashed(&[1, 2, 3, 4], 0x0000_0000_0005_0000, true).unwrap();
    assert_eq!(
        lookup.request(),
        Some(Request { file: FileKind::Key, offset: 104, len: 104 })
    );
    let mut block = vec![0u8; 104];
    block[1] = 2; // two entries, hashes 4 and 5
    block[8..26].copy_from_slice(&[0, 0, 0, 0, 0, 92, 0, 0, 0, 0, 0, 1, 0, 0, 0, 0, 0, 4]);
    block[26..44].copy_from_slice(&[0, 0, 0, 0, 0, 103, 0, 0, 0, 0, 0, 1, 0, 0, 0, 0, 0, 5]);
    lookup.resume(&block).unwrap();
    assert_eq!(
        lookup.request(),
        Some(Request { file: FileKind::Dat, offset: 103, len: 6 })
    );
    lookup.resume(&[0, 0, 0, 0, 0, 5]).unwrap();
    assert_eq!(
        lookup.request(),
        Some(Request { file: FileKind::Dat, offset: 109, len: 5 })
    );
    lookup.resume(&[1, 2, 3, 4, 77]).unwrap();
    assert!(lookup.is_found());
    assert_eq!(lookup.position(), 1);
    assert_eq!(lookup.request(), None);
    assert_eq!(lookup.value, Some(vec![77]));

    let writes = table.remove(lookup).unwrap();
    assert_eq!(writes.len(), 1);
    assert_eq!(writes[0].file, FileKind::Key);
    assert_eq!(writes[0].offset, 104);
    block[1] = 1;
    block[26..44].copy_from_slice(&[0; 18]);
    assert_eq!(writes[0].bytes, block);
}

#[test]
fn a_lookup_without_values_reads_keys_only() {
    let table = Table::create(&OPTIONS, 1, 2);
    let mut lookup = table.lookup_hashed(&[1, 2, 3, 4], 0x0000_0000_0005_0000, false).unwrap();
    let mut block = vec![0u8; 104];
    block[1] = 1;
    block[8..26].copy_from_slice(&[0, 0, 0, 0, 0, 92, 0, 0, 0, 0, 0, 9, 0, 0, 0, 0, 0, 5]);
    lookup.resume(&block).unwrap();
    lookup.resume(&[0, 0, 0, 0, 0, 13]).unwrap();
    assert_eq!(
        lookup.request(),
        Some(Request { file: FileKind::Dat, offset: 98, len: 4 })
    );
    lookup.resume(&[1, 2, 3, 4]).unwrap();
    assert!(lookup.is_found());
    assert_eq!(lookup.value, Some(Vec::new()));
}

#[test]
fn a_lookup_goes_past_other_keys() {
    let table = Table::create(&OPTIONS, 1, 2);
    let mut lookup = table.lookup_hashed(&[1, 2, 3, 4], 0x0000_0000_0005_0000, true).unwrap();
    let mut block = vec![0u8; 104];
    block[1] = 1;
    block[7] = 200; // spill record at 200
    block[8..26].copy_from_slice(&[0, 0, 0, 0, 0, 92, 0, 0, 0, 0, 0, 1, 0, 0, 0, 0, 0, 5]);
    lookup.resume(&block).unwrap();
    lookup.resume(&[0, 0, 0, 0, 0, 5]).unwrap();
    lookup.resume(&[1, 2, 3, 5, 77]).unwrap();
    assert!(!lookup.is_found());
    assert_eq!(
        lookup.request(),
        Some(Request { file: FileKind::Dat, offset: 200, len: 8 })
    );
    lookup.resume(&[0, 0, 0, 0, 0, 0, 0, 104]).unwrap();
    assert_eq!(
        lookup.request(),
        Some(Request { file: FileKind::Dat, offset: 208, len: 104 })
    );
    lookup.resume(&[0; 104]).unwrap();
    assert_eq!(lookup.request(), None);
    assert!(!lookup.is_found());

    let writes = table.insert(lookup, b"xy", 500).unwrap();
    assert_eq!(writes.len(), 2);
    assert_eq!(writes[0].file, FileKind::Dat);
    assert_eq!(writes[0].offset, 500);
    assert_eq!(writes[0].bytes, vec![0, 0, 0, 0, 0, 6, 1, 2, 3, 4, b'x', b'y']);
    block[1] = 2;
    block.copy_within(8..26, 26);
    block[8..26].copy_from_slice(&[0, 0, 0, 0, 1, 244, 0, 0, 0, 0, 0, 2, 0, 0, 0, 0, 0, 5]);
    assert_eq!(writes[1].bytes, block);
    assert_eq!(writes[1].offset, 104);
}

#[test]
fn a_found_key_takes_another_value() {
    let table = Table::create(&OPTIONS, 1, 2);
    let mut lookup = table.lookup_hashed(&[1, 2, 3, 4], 0x0000_0000_0005_0000, true).unwrap();
    let mut block = vec![0u8; 104];
    block[1] = 1;
    block[8..26].copy_from_slice(&[0, 0, 0, 0, 0, 92, 0, 0, 0, 0, 0, 1, 0, 0, 0, 0, 0, 5]);
    lookup.resume(&block).unwrap();
    lookup.resume(&[0, 0, 0, 0, 0, 5]).unwrap();
    lookup.resume(&[1, 2, 3, 4, 77]).unwrap();
    let record = append_record(&[1, 2, 3, 4], b"xyz", 103).unwrap();
    assert_eq!(record.file, FileKind::Dat);
    assert_eq!(record.offset, 103);
    assert_eq!(record.bytes, vec![0, 0, 0, 0, 0, 7, 1, 2, 3, 4, b'x', b'y', b'z']);
    let writes = table.update(lookup, 3, 103).unwrap();
    assert_eq!(writes.len(), 1);
    block[8..26].copy_from_slice(&[0, 0, 0, 0, 0, 103, 0, 0, 0, 0, 0, 3, 0, 0, 0, 0, 0, 5]);
    assert_eq!(writes[0].bytes, block);
}

#[test]
fn a_recorded_key_is_entered() {
    let table = Table::create(&OPTIONS, 1, 2);
    let mut lookup = table.lookup_hashed(&[1, 2, 3, 4], 0x0000_0000_0005_0000, true).unwrap();
    let mut block = vec![0u8; 104];
    block[1] = 5; // full
    lookup.resume(&block).unwrap();
    let writes = table.enter(lookup, 3, 300, 313).unwrap();
    assert_eq!(writes.len(), 2);
    assert_eq!(writes[0].file, FileKind::Dat);
    assert_eq!(writes[0].offset, 313);
    assert_eq!(&writes[0].bytes[..8], &[0, 0, 0, 0, 0, 0, 0, 104]);
    assert_eq!(&writes[0].bytes[8..], &block[..]);
    assert_eq!(writes[1].offset, 104);
    assert_eq!(&writes[1].bytes[..8], &[0, 1, 0, 0, 0, 0, 1, 57]);
    assert_eq!(
        &writes[1].bytes[8..26],
        &[0, 0, 0, 0, 1, 44, 0, 0, 0, 0, 0, 3, 0, 0, 0, 0, 0, 5]
    );
}

#[test]
fn a_full_data_file_takes_no_value() {
    let table = Table::create(&OPTIONS, 1, 2);
    let lookup = || {
        let mut lookup = table.lookup_hashed(&[1, 2, 3, 4], 0, true).unwrap();
        lookup.resume(&[0; 104]).unwrap();
        lookup
    };
    assert!(matches!(
        table.insert(lookup(), b"x", LIMIT48),
        Err(Error::DataFileFull)
    ));
    // A record may end past the last offset; it has to start there or before.
    let writes = table.insert(lookup(), b"x", LIMIT48 - 1).unwrap();
    assert_eq!(writes[0].offset, LIMIT48 - 1);
    assert_eq!(writes[0].bytes.len(), 11);
    assert!(append_record(&[1, 2, 3, 4], b"x", LIMIT48 - 1).is_ok());
    assert!(matches!(
        append_record(&[1, 2, 3, 4], b"x", LIMIT48),
        Err(Error::DataFileFull)
    ));
}

#[test]
fn a_spill_record_starts_at_an_offset_too() {
    let table = Table::create(&OPTIONS, 1, 2);
    let lookup = || {
        let mut lookup = table.lookup_hashed(&[1, 2, 3, 4], 0x0000_0000_0005_0000, true).unwrap();
        let mut block = vec![0u8; 104];
        block[1] = 5;
        lookup.resume(&block).unwrap();
        lookup
    };
    assert!(table.insert(lookup(), b"x", LIMIT48 - 12).is_ok());
    assert!(matches!(
        table.insert(lookup(), b"x", LIMIT48 - 11),
        Err(Error::DataFileFull)
    ));
    assert!(table.enter(lookup(), 1, 92, LIMIT48 - 1).is_ok());
    assert!(matches!(
        table.enter(lookup(), 1, 92, LIMIT48),
        Err(Error::DataFileFull)
    ));
}

#[test]
fn a_full_key_file_takes_no_bucket() {
    let table = Table::create(&OPTIONS, 1, 2);
    let most = MAX_FILE_SIZE / 104 - 1;
    for (bucket_count, fits) in [(most - 1, true), (most, false), (most + 1, false)] {
        let full = Table::open(KeyHeader { bucket_count, key_count: u64::MAX, ..table.header });
        assert!(full.is_ok());
        let mut split = full.maybe_split().unwrap().unwrap();
        assert_eq!(
            split.request(),
            Some(Request { file: FileKind::Key, offset: (full.next + 1) * 104, len: 104 })
        );
        split.resume(&[0; 104]).unwrap();
        assert_eq!(split.request(), None);
        let writes = full.finish_split(&split, 92);
        assert_eq!(writes.is_ok(), fits);
        assert!(fits || matches!(writes, Err(Error::KeyFileFull)));
    }
}

#[test]
fn a_split_that_cannot_start() {
    let table = Table::create(&OPTIONS, 1, 2);
    let last = Table::open(KeyHeader { bucket_count: 1 << 63, key_count: u64::MAX, ..table.header });
    let crowded = Table { header: KeyHeader { load_factor: 0, ..last.header }, ..last };
    assert!(matches!(last.maybe_split(), Ok(None)));
    assert!(matches!(crowded.maybe_split(), Err(Error::KeyFileFull)));
    let far = Table::open(KeyHeader {
        bucket_count: (1 << 59) + (1 << 58),
        key_count: u64::MAX,
        load_factor: 0,
        ..table.header
    });
    assert_eq!(far.next, 1 << 58);
    assert!(matches!(far.maybe_split(), Err(Error::UnexpectedEof)));
}

#[test]
fn keys_are_counted() {
    let mut table = Table::create(&OPTIONS, 1, 2);
    table.count_added();
    table.count_added();
    assert_eq!(table.header.key_count, 2);
    table.count_removed();
    table.count_removed();
    table.count_removed();
    assert_eq!(table.header.key_count, 0);
}

#[test]
fn a_split_parts_a_bucket() {
    let mut table = Table::create(&OPTIONS, 1, 2);
    assert!(matches!(table.maybe_split(), Ok(None)));
    let (mut dat, mut key) = table.new_files();
    let mut hashes = Vec::new();
    for i in 0..3u8 {
        let lookup = search(&dat, &key, table.lookup(&[i; 4], true).unwrap()).unwrap();
        for write in table.insert(lookup, &[i], dat.len() as u64).unwrap() {
            let at = write.offset as usize;
            match write.file {
                FileKind::Dat => dat.extend_from_slice(&write.bytes),
                FileKind::Key => key[at..at + 104].copy_from_slice(&write.bytes),
            }
        }
        table.count_added();
        hashes.push(xxhash_rust::xxh64::xxh64(&[i; 4], 2));
    }
    let started = table.maybe_split().unwrap().unwrap();
    let split = sort_out(&dat, &key, started).unwrap();
    let even = hashes.iter().filter(|hash| **hash % 2 == 0).count();
    assert_eq!(split.keep.len(), even);
    assert_eq!(split.moved.len(), 3 - even);
    let writes = table.finish_split(&split, dat.len() as u64).unwrap();
    assert_eq!(writes.len(), 3);
    assert_eq!(writes[0].bytes.len(), 0);
    assert_eq!(writes[1].offset, 104);
    assert_eq!(writes[1].bytes[1], even as u8);
    assert_eq!(writes[2].offset, 208);
    assert_eq!(writes[2].bytes[1], 3 - even as u8);
    table.advance();
    assert_eq!((table.header.bucket_count, table.level, table.next), (2, 1, 0));
    for hash in hashes {
        assert_eq!(table.bucket_index(hash), hash % 2);
    }
    let header = table.write_key_header();
    assert_eq!(KeyHeader::read_from(&header.bytes), Ok(table.header));
}

#[test]
fn records_are_a_size_a_key_and_a_value() {
    assert_eq!(
        encode_record(&[1, 2], &[3, 4, 5]),
        vec![0, 0, 0, 0, 0, 5, 1, 2, 3, 4, 5]
    );
}

#[test]
fn bytes_are_compared() {
    assert!(same_bytes(b"", b""));
    assert!(same_bytes(b"ab", b"ab"));
    assert!(!same_bytes(b"ab", b"ac"));
    assert!(!same_bytes(b"ab", b"abc"));
}

#[test]
fn a_block_past_every_offset_cannot_be_read() {
    let table = Table::create(&OPTIONS, 1, 2);
    let huge = Table::open(KeyHeader { bucket_count: 1 << 63, ..table.header });
    assert!(huge.is_ok());
    assert!(huge.lookup_hashed(&[1, 2, 3, 4], 7, true).is_ok());
    assert!(matches!(
        huge.lookup_hashed(&[1, 2, 3, 4], 1 << 62, true),
        Err(Error::UnexpectedEof)
    ));
}

#[test]
fn tables_that_cannot_be_used() {
    let table = Table::create(&OPTIONS, 1, 2);
    assert!(table.is_ok());
    assert!(!Table { level: 1, next: 1, ..table }.is_ok());
    assert!(!Table { level: 64, ..table }.is_ok());
    let small = KeyHeader { block_size: 103, ..table.header };
    assert!(!Table { header: small, ..table }.is_ok());
}

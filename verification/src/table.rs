//! The hash table that the key file holds: what each operation reads, decides
//! and writes.

use crate::bucket::{Bucket, BucketEntry, BucketView};
use crate::error::Error;
use crate::format::{DatHeader, KeyHeader, LIMIT48, VERSION};
use crate::hash::{hash48, pepper, xxh64};
use crate::linear::{compute_level_next, power};
use crate::lookup::{Lookup, LookupView};
use crate::split::{Split, SplitView};
use crate::walk::{FileKind, Walk, WalkView};
use crate::write::{encode_record, fits_block, gather, place, Write, WriteView};
use vstd::arithmetic::power2::*;
use vstd::prelude::*;

verus! {

/// The largest size that a file can have.
pub const MAX_FILE_SIZE: u64 = 0x7fff_ffff_ffff_ffff;

/// The most buckets that a table can have.
pub const MAX_BUCKETS: u64 = 0x8000_0000_0000_0000;

/// Options for creating a store.
#[derive(Clone, Copy, Debug, PartialEq, Eq, Structural)]
pub struct StoreOptions {
    /// Bytes in a key.
    pub key_size: u16,
    /// Bytes in a bucket's block.
    pub block_size: u16,
    /// Identifies the application.
    pub appnum: u64,
    /// The load at which a bucket is split, as a fraction of 65536.
    pub load_factor: u16,
}

impl Default for StoreOptions {
    /// Keys of 32 bytes, blocks of 4096, application 1, half load.
    fn default() -> (options: Self)
        ensures
            options == (StoreOptions {
                key_size: 32,
                block_size: 4096,
                appnum: 1,
                load_factor: 32768,
            }),
    {
        StoreOptions { key_size: 32, block_size: 4096, appnum: 1, load_factor: 32768 }
    }
}

/// The key file's header and the state of linear hashing.
#[derive(Clone, Copy, Debug, PartialEq, Eq, Structural)]
pub struct Table {
    pub header: KeyHeader,
    /// The current level of linear hashing.
    pub level: u32,
    /// The next bucket to be split.
    pub next: u64,
}

/// The keys for each 65536 places in the buckets.
pub open spec fn load(header: KeyHeader) -> int {
    let places = header.bucket_count * header.capacity();
    (header.key_count * 65536) / if places > 1 {
        places
    } else {
        1
    }
}

impl Table {
    /// The buckets that the state of linear hashing makes.
    pub open spec fn buckets(self) -> int {
        pow2(self.level as nat) + self.next
    }

    /// The table can be used: its buckets hold entries, and the header counts
    /// them, or one less. The latter is what becomes of a header that counts
    /// no bucket: it is served as if the first one were there.
    pub open spec fn ok(self) -> bool {
        &&& self.header.capacity() >= 1
        &&& self.level < 63 || self.level == 63 && self.next == 0
        &&& self.next < pow2(self.level as nat)
        &&& self.buckets() == self.header.bucket_count || self.buckets()
            == self.header.bucket_count + 1
    }

    /// The table has buckets that hold entries, the hashing state is the one
    /// of its bucket count, and the key file has a size that a file can have.
    pub open spec fn regular(self) -> bool {
        &&& self.header.capacity() >= 1
        &&& crate::linear::describes(self.level, self.next, self.header.bucket_count)
        &&& (self.header.bucket_count + 1) * self.header.block_size <= MAX_FILE_SIZE
    }

    /// The block of the bucket that a hash falls in starts at an offset.
    pub open spec fn reaches(self, hash: u64) -> bool {
        (self.index(hash) + 1) * self.header.block_size <= u64::MAX
    }

    /// The bucket that a hash falls in.
    pub open spec fn index(self, hash: u64) -> int {
        crate::linear::index_of(self.level, self.next, hash)
    }

    /// A table of one empty bucket.
    pub open spec fn fresh(options: StoreOptions, uid: u64, salt: u64) -> Table {
        Table {
            header: KeyHeader {
                version: VERSION,
                uid,
                appnum: options.appnum,
                key_size: options.key_size,
                salt,
                pepper: crate::hash::pepper_value(salt),
                block_size: options.block_size,
                load_factor: options.load_factor,
                bucket_count: 1,
                key_count: 0,
            },
            level: 0,
            next: 0,
        }
    }

    /// The data file of a new store: its header.
    pub open spec fn new_dat(self) -> Seq<u8> {
        DatHeader {
            version: self.header.version,
            uid: self.header.uid,
            appnum: self.header.appnum,
            key_size: self.header.key_size,
        }.encoding()
    }

    /// The key file of a new store: its header and one empty bucket.
    pub open spec fn new_key(self) -> Seq<u8> {
        self.header.block() + crate::format::zeros(self.header.block_size as nat)
    }

    /// The table that a key file holds.
    pub open spec fn opened(key: Seq<u8>) -> Result<Table, Error> {
        match KeyHeader::decoding(key) {
            Err(error) => Err(error),
            Ok(header) => if header.bucket_count > MAX_BUCKETS {
                Err(Error::InvalidHeader)
            } else {
                let (level, next) = crate::linear::state_of(header.bucket_count);
                Ok(Table { header, level, next })
            },
        }
    }

    /// A lookup of a key with this hash, or of the key and its value, that has
    /// read nothing.
    pub open spec fn looking(self, key: Seq<u8>, hash: u64, values: bool) -> LookupView {
        LookupView {
            walk: WalkView::start(
                self.header,
                self.index(hash) as u64,
                Some(crate::hash::upper48(hash)),
                values,
            ),
            key,
            value: None,
        }
    }

    /// The block of a bucket, as it is to be written.
    pub open spec fn block(self, index: u64, bucket: BucketView) -> WriteView {
        WriteView {
            file: FileKind::Key,
            offset: ((index + 1) * self.header.block_size) as u64,
            bytes: bucket.encoding(self.header.block_size as int),
        }
    }

    /// The entry of a record of a value of `size` bytes at `offset`.
    pub open spec fn entry_at(self, lookup: LookupView, size: u64, offset: u64) -> BucketEntry {
        BucketEntry { offset, size, hash: lookup.walk.filter->Some_0 }
    }

    /// The entry of a record that is appended at `dat_len`.
    pub open spec fn entry_for(self, lookup: LookupView, value: Seq<u8>, dat_len: u64) -> BucketEntry {
        self.entry_at(lookup, value.len() as u64, dat_len)
    }

    /// What is written to store a key that was not found, once its record
    /// stands at `offset` and the data file ends at `dat_len`: what the bucket
    /// spills, then the bucket that the walk started at, with an entry for it.
    pub open spec fn entering(
        self,
        lookup: LookupView,
        size: u64,
        offset: u64,
        dat_len: u64,
    ) -> Result<Seq<WriteView>, Error> {
        let full = lookup.walk.home.entries.len() >= self.header.capacity();
        let entry = self.entry_at(lookup, size, offset);
        let (home, tail) = crate::write::placed(
            self.header,
            lookup.walk.home,
            entry,
            dat_len as int,
        );
        if full && dat_len >= LIMIT48 {
            Err(Error::DataFileFull)
        } else {
            Ok(
                seq![
                    WriteView { file: FileKind::Dat, offset: dat_len, bytes: tail },
                    self.block(lookup.walk.index, home),
                ],
            )
        }
    }

    /// What is written to give a found key another value, once its record
    /// stands at `offset`: the bucket, or the spill record's bucket and the
    /// bucket, with the key's entry changed.
    pub open spec fn repointing(self, lookup: LookupView, size: u64, offset: u64) -> Result<
        Seq<WriteView>,
        Error,
    > {
        let bucket = lookup.walk.current();
        let changed = BucketView {
            entries: bucket.entries.update(
                lookup.walk.stage->At_index as int,
                self.entry_at(lookup, size, offset),
            ),
            ..bucket
        };
        if !bucket.fits(self.header.block_size as int) {
            Err(Error::InvalidBucket)
        } else if lookup.walk.page == 0 {
            Ok(seq![self.block(lookup.walk.index, changed)])
        } else {
            Ok(
                seq![
                    self.spilled_block(lookup.walk.page, changed),
                    self.block(lookup.walk.index, lookup.walk.home),
                ],
            )
        }
    }

    /// What is written to store a key that was not found: its record at the
    /// end of the data file, then the bucket that the walk started at, with an
    /// entry for it.
    pub open spec fn insertion(self, lookup: LookupView, value: Seq<u8>, dat_len: u64) -> Result<
        Seq<WriteView>,
        Error,
    > {
        let record = crate::write::data_record(lookup.key, value);
        let end = dat_len + record.len();
        let full = lookup.walk.home.entries.len() >= self.header.capacity();
        let entry = self.entry_for(lookup, value, dat_len);
        let (home, tail) = crate::write::placed(self.header, lookup.walk.home, entry, end);
        if !crate::write::recordable(lookup.key, value, dat_len as int) || full && end >= LIMIT48 {
            Err(Error::DataFileFull)
        } else {
            Ok(
                seq![
                    WriteView { file: FileKind::Dat, offset: dat_len, bytes: record + tail },
                    self.block(lookup.walk.index, home),
                ],
            )
        }
    }

    /// All that is written to give a found key another value: the record at the
    /// end of the data file, then the bucket, or the spill record's bucket,
    /// with the key's entry changed.
    pub open spec fn replacement(self, lookup: LookupView, value: Seq<u8>, dat_len: u64) -> Result<
        Seq<WriteView>,
        Error,
    > {
        let record = crate::write::data_record(lookup.key, value);
        let entry = self.entry_for(lookup, value, dat_len);
        let bucket = lookup.walk.current();
        let changed = BucketView {
            entries: bucket.entries.update(lookup.walk.stage->At_index as int, entry),
            ..bucket
        };
        let appended = WriteView { file: FileKind::Dat, offset: dat_len, bytes: record };
        if !crate::write::recordable(lookup.key, value, dat_len as int) {
            Err(Error::DataFileFull)
        } else if !bucket.fits(self.header.block_size as int) {
            Err(Error::InvalidBucket)
        } else {
            Ok(
                if lookup.walk.page == 0 {
                    seq![appended, self.block(lookup.walk.index, changed)]
                } else {
                    seq![
                        appended,
                        self.spilled_block(lookup.walk.page, changed),
                        self.block(lookup.walk.index, lookup.walk.home),
                    ]
                },
            )
        }
    }

    /// The bucket in a spill record, as it is to be written.
    pub open spec fn spilled_block(self, page: u64, bucket: BucketView) -> WriteView {
        WriteView {
            file: FileKind::Dat,
            offset: (page + crate::format::SPILL_HEADER_SIZE) as u64,
            bytes: bucket.encoding(self.header.block_size as int),
        }
    }

    /// What is written to remove a found key: its bucket, or its spill
    /// record's bucket, without the key's entry.
    pub open spec fn removal(self, lookup: LookupView) -> Result<Seq<WriteView>, Error> {
        let bucket = lookup.walk.current();
        let changed = BucketView {
            entries: bucket.entries.remove(lookup.walk.stage->At_index as int),
            ..bucket
        };
        if !bucket.fits(self.header.block_size as int) {
            Err(Error::InvalidBucket)
        } else if lookup.walk.page == 0 {
            Ok(seq![self.block(lookup.walk.index, changed)])
        } else {
            Ok(seq![self.spilled_block(lookup.walk.page, changed)])
        }
    }

    /// The header, as it is to be written.
    pub open spec fn header_block(self) -> WriteView {
        WriteView { file: FileKind::Key, offset: 0, bytes: self.header.block() }
    }

    /// The load is over the load factor.
    pub open spec fn overloaded(self) -> bool {
        load(self.header) > self.header.load_factor
    }

    /// One more bucket leaves the key file a size that a file can have.
    pub open spec fn can_grow(self) -> bool {
        (self.header.bucket_count + 2) * self.header.block_size <= MAX_FILE_SIZE
    }

    /// A split that has read nothing.
    pub open spec fn splitting(self) -> SplitView {
        SplitView {
            walk: WalkView::start(self.header, self.next, None, true),
            salt: self.header.salt,
            level: self.level,
            next: self.next,
            keep: Seq::empty(),
            moved: Seq::empty(),
        }
    }

    /// How splitting the next bucket starts. It cannot where the bucket has a
    /// block at no offset, or where the level is the last.
    pub open spec fn split_start(self) -> Result<SplitView, Error> {
        if self.level >= 63 {
            Err(Error::KeyFileFull)
        } else if (self.next + 1) * self.header.block_size > u64::MAX {
            Err(Error::UnexpectedEof)
        } else {
            Ok(self.splitting())
        }
    }

    /// The spill records that a split takes.
    pub open spec fn split_spills(self, split: SplitView) -> int {
        crate::write::spills(self.header, split.keep.len() as int) + crate::write::spills(
            self.header,
            split.moved.len() as int,
        )
    }

    /// The bytes of the spill records that a split takes.
    pub open spec fn split_spill(self, split: SplitView) -> int {
        self.split_spills(split) * crate::write::spill_size(self.header)
    }

    /// What is written to split a bucket: what overflows the two buckets, at
    /// the end of the data file, then the two buckets.
    pub open spec fn splitted(self, split: SplitView, dat_len: u64) -> Result<Seq<WriteView>, Error> {
        let (keep, tail) = crate::write::gathered(self.header, split.keep, dat_len as int);
        let (moved, more) = crate::write::gathered(
            self.header,
            split.moved,
            dat_len + tail.len(),
        );
        if !self.can_grow() {
            Err(Error::KeyFileFull)
        } else if !crate::write::room_for(
            self.header,
            dat_len as int,
            self.split_spills(split),
        ) {
            Err(Error::DataFileFull)
        } else {
            Ok(
                seq![
                    WriteView { file: FileKind::Dat, offset: dat_len, bytes: tail + more },
                    self.block(split.next, keep),
                    self.block(self.header.bucket_count, moved),
                ],
            )
        }
    }

    /// The table with one more bucket.
    pub open spec fn grown(self) -> Table {
        let (level, next) = crate::linear::advanced(self.level, self.next);
        Table {
            header: KeyHeader {
                bucket_count: (self.header.bucket_count + 1) as u64,
                ..self.header
            },
            level,
            next,
        }
    }

    /// The table with another number of keys.
    pub open spec fn counting(self, key_count: u64) -> Table {
        Table { header: KeyHeader { key_count, ..self.header }, ..self }
    }

    /// A table of one empty bucket.
    pub fn create(options: &StoreOptions, uid: u64, salt: u64) -> (table: Table)
        ensures
            table == Table::fresh(*options, uid, salt),
    {
        Table {
            header: KeyHeader {
                version: VERSION,
                uid,
                appnum: options.appnum,
                key_size: options.key_size,
                salt,
                pepper: pepper(salt),
                block_size: options.block_size,
                load_factor: options.load_factor,
                bucket_count: 1,
                key_count: 0,
            },
            level: 0,
            next: 0,
        }
    }

    /// The data file and the key file of a new store.
    pub fn new_files(&self) -> (files: (Vec<u8>, Vec<u8>))
        ensures
            files.0@ == self.new_dat(),
            files.1@ == self.new_key(),
    {
        let dat_header = DatHeader {
            version: self.header.version,
            uid: self.header.uid,
            appnum: self.header.appnum,
            key_size: self.header.key_size,
        };
        let dat: Vec<u8> = dat_header.write_to();
        let mut key: Vec<u8> = self.header.write_to();
        crate::format::put_zeros(&mut key, self.header.block_size as usize);
        (dat, key)
    }

    /// The table that a key file's header describes.
    pub fn open(header: KeyHeader) -> (table: Table)
        requires
            header.bucket_count <= MAX_BUCKETS,
        ensures
            table.header == header,
            (table.level, table.next) == crate::linear::state_of(header.bucket_count),
            header.bucket_count > 0 ==> crate::linear::describes(
                table.level,
                table.next,
                header.bucket_count,
            ),
    {
        let (level, next) = compute_level_next(header.bucket_count);
        Table { header, level, next }
    }

    /// Whether the table can be used.
    pub fn is_ok(&self) -> (ok: bool)
        ensures
            ok == self.ok(),
    {
        if self.header.bucket_capacity() == 0 || self.level > 63 || self.level == 63 && self.next
            != 0 {
            return false;
        }
        let modulus: u64 = power(self.level);
        let buckets: u128 = modulus as u128 + self.next as u128;
        let count: u128 = self.header.bucket_count as u128;
        self.next < modulus && (buckets == count || buckets == count + 1)
    }

    /// The bucket that a hash falls in.
    pub fn bucket_index(&self, hash: u64) -> (index: u64)
        requires
            self.ok(),
        ensures
            index == self.index(hash),
            index < self.buckets(),
    {
        proof {
            crate::linear::lemma_index_bound(self.level, self.next, hash);
        }
        crate::linear::bucket_index(self.level, self.next, hash)
    }

    /// A table with as many buckets as it counts can be used, and its blocks
    /// have offsets.
    pub proof fn lemma_regular(self, hash: u64)
        requires
            self.regular(),
        ensures
            self.ok(),
            self.reaches(hash),
    {
        self.lemma_level_bound();
        crate::linear::law_index_in_range(self.level, self.next, self.header.bucket_count, hash);
        self.lemma_block_offset(self.index(hash));
    }

    /// A table that can grow has blocks at offsets, and few enough of them.
    pub proof fn lemma_growing_bound(self)
        requires
            self.ok(),
            self.can_grow(),
        ensures
            self.level < 57,
            self.next <= self.header.bucket_count,
            self.header.bucket_count < 0x0200_0000_0000_0000,
            (self.next + 1) * self.header.block_size <= MAX_FILE_SIZE,
            (self.header.bucket_count + 1) * self.header.block_size <= MAX_FILE_SIZE,
    {
        let bs = self.header.block_size as int;
        let n = self.header.bucket_count as int;
        let next = self.next as int;
        lemma_pow2_pos(self.level as nat);
        lemma2_to64_rest();
        assert((n + 2) * 104 <= 0x7fff_ffff_ffff_ffff && (next + 1) * bs <= 0x7fff_ffff_ffff_ffff
            && (n + 1) * bs <= 0x7fff_ffff_ffff_ffff) by (nonlinear_arith)
            requires
                (n + 2) * bs <= 0x7fff_ffff_ffff_ffff,
                bs >= 104,
                0 <= next <= n,
        ;
        if self.level >= 57 {
            if self.level > 57 {
                lemma_pow2_strictly_increases(57, self.level as nat);
            }
        }
    }

    pub proof fn lemma_level_bound(self)
        requires
            self.regular(),
        ensures
            self.level < 57,
            self.header.bucket_count >= 1,
            self.header.bucket_count < 0x0200_0000_0000_0000,
    {
        lemma_pow2_pos(self.level as nat);
        lemma2_to64_rest();
        assert(self.header.block_size >= 104);
        assert((self.header.bucket_count + 1) * 104 <= 0x7fff_ffff_ffff_ffff) by (nonlinear_arith)
            requires
                (self.header.bucket_count + 1) * self.header.block_size <= 0x7fff_ffff_ffff_ffff,
                self.header.block_size >= 104,
        ;
        if self.level >= 57 {
            if self.level > 57 {
                lemma_pow2_strictly_increases(57, self.level as nat);
            }
        }
    }

    /// A bucket's block ends inside the key file.
    pub proof fn lemma_block_offset(self, index: int)
        requires
            self.regular(),
            0 <= index < self.header.bucket_count,
        ensures
            0 < (index + 1) * self.header.block_size,
            (index + 2) * self.header.block_size <= (self.header.bucket_count + 1)
                * self.header.block_size,
            (index + 2) * self.header.block_size == (index + 1) * self.header.block_size
                + self.header.block_size,
    {
        let bs = self.header.block_size as int;
        let n = self.header.bucket_count as int;
        assert(0 < (index + 1) * bs && (index + 2) * bs <= (n + 1) * bs && (index + 2) * bs == (index
            + 1) * bs + bs) by (nonlinear_arith)
            requires
                0 <= index < n,
                bs >= 104,
        ;
    }

    /// Starts to look up a key with this hash, and its value if `values`. Fails
    /// where the key's bucket has a block at no offset.
    pub fn lookup_hashed(&self, key: &[u8], hash: u64, values: bool) -> (lookup: Result<
        Lookup,
        Error,
    >)
        requires
            self.ok(),
            key@.len() == self.header.key_size,
        ensures
            if self.reaches(hash) {
                &&& lookup is Ok
                &&& lookup->Ok_0@ == self.looking(key@, hash, values)
                &&& lookup->Ok_0@.sound()
            } else {
                lookup == Err::<Lookup, Error>(Error::UnexpectedEof)
            },
    {
        let index: u64 = self.bucket_index(hash);
        let bs: u128 = self.header.block_size as u128;
        assert((index + 1) * self.header.block_size <= 0x1_0000_0000_0000_0000 * 0xffff)
            by (nonlinear_arith);
        if (index as u128 + 1) * bs > u64::MAX as u128 {
            return Err(Error::UnexpectedEof);
        }
        assert((index + 1) * self.header.block_size >= (index + 1) * 104) by (nonlinear_arith)
            requires
                self.header.block_size >= 104,
        ;
        Ok(
            Lookup {
                walk: Walk::new(&self.header, index, Some(hash48(hash)), values),
                key: vstd::slice::slice_to_vec(key),
                value: None,
            },
        )
    }

    /// Starts to look up a key, and its value if `values`. Fails where the
    /// key's bucket has a block at no offset.
    pub fn lookup(&self, key: &[u8], values: bool) -> (lookup: Result<Lookup, Error>)
        requires
            self.ok(),
            key@.len() == self.header.key_size,
        ensures
            ({
                let hash = crate::hash::xxh64_value(key@, self.header.salt);
                if self.reaches(hash) {
                    &&& lookup is Ok
                    &&& lookup->Ok_0@ == self.looking(key@, hash, values)
                    &&& lookup->Ok_0@.sound()
                } else {
                    lookup == Err::<Lookup, Error>(Error::UnexpectedEof)
                }
            }),
    {
        let hash: u64 = xxh64(key, self.header.salt);
        self.lookup_hashed(key, hash, values)
    }

    /// A bucket's block, as it is to be written.
    fn write_bucket(&self, index: u64, bucket: &Bucket) -> (write: Write)
        requires
            index < u64::MAX,
            (index + 1) * self.header.block_size <= u64::MAX,
            bucket@.fits(self.header.block_size as int),
        ensures
            write@ == self.block(index, bucket@),
    {
        Write {
            file: FileKind::Key,
            offset: self.header.bucket_offset(index),
            bytes: bucket.to_bytes(self.header.block_size as usize),
        }
    }

    /// A spill record's bucket, as it is to be written.
    fn write_spilled(&self, page: u64, bucket: &Bucket) -> (write: Write)
        requires
            page < LIMIT48,
            bucket@.fits(self.header.block_size as int),
        ensures
            write@ == self.spilled_block(page, bucket@),
    {
        Write {
            file: FileKind::Dat,
            offset: page + crate::format::SPILL_HEADER_SIZE as u64,
            bytes: bucket.to_bytes(self.header.block_size as usize),
        }
    }

    /// The header, as it is to be written.
    pub fn write_key_header(&self) -> (write: Write)
        ensures
            write@ == self.header_block(),
    {
        Write { file: FileKind::Key, offset: 0, bytes: self.header.write_to() }
    }

    /// What to write to store a key that was not found. `dat_len` is the size
    /// of the data file.
    pub fn insert(&self, lookup: Lookup, value: &[u8], dat_len: u64) -> (writes: Result<
        Vec<Write>,
        Error,
    >)
        requires
            self.ok(),
            lookup@.sound(),
            lookup@.missing(),
            lookup@.walk.block_size == self.header.block_size,
        ensures
            match self.insertion(lookup@, value@, dat_len) {
                Ok(views) => writes is Ok && crate::write::views(writes->Ok_0@) == views,
                Err(error) => writes == Err::<Vec<Write>, Error>(error),
            },
    {
        let key: &[u8] = lookup.key.as_slice();
        let size: u64 = value.len() as u64;
        if dat_len >= LIMIT48 || size >= LIMIT48 || key.len() as u64 + size >= LIMIT48 {
            proof {
                broadcast use crate::codec::lemma_be_bytes_len;

            }
            return Err(Error::DataFileFull);
        }
        let mut tail: Vec<u8> = encode_record(key, value);
        let hash: u64 = match lookup.walk.filter {
            Some(hash) => hash,
            None => 0,
        };
        let entry = BucketEntry { offset: dat_len, size: value.len() as u64, hash };
        let index: u64 = lookup.walk.index;
        let mut home: Bucket = lookup.walk.home;
        match place(&self.header, &mut home, entry, dat_len, &mut tail) {
            Ok(()) => {},
            Err(error) => {
                return Err(error);
            },
        }
        let writes: Vec<Write> = vec![
            Write { file: FileKind::Dat, offset: dat_len, bytes: tail },
            self.write_bucket(index, &home),
        ];
        assert(crate::write::views(writes@) =~= self.insertion(lookup@, value@, dat_len)->Ok_0);
        Ok(writes)
    }

    /// What to write to store a key that was not found, once its record, of a
    /// value of `size` bytes, has been appended at `offset`. `dat_len` is the
    /// size of the data file with it.
    pub fn enter(&self, lookup: Lookup, size: u64, offset: u64, dat_len: u64) -> (writes: Result<
        Vec<Write>,
        Error,
    >)
        requires
            self.ok(),
            lookup@.sound(),
            lookup@.missing(),
            lookup@.walk.block_size == self.header.block_size,
            size < LIMIT48,
            offset < LIMIT48,
        ensures
            match self.entering(lookup@, size, offset, dat_len) {
                Ok(views) => writes is Ok && crate::write::views(writes->Ok_0@) == views,
                Err(error) => writes == Err::<Vec<Write>, Error>(error),
            },
    {
        let hash: u64 = match lookup.walk.filter {
            Some(hash) => hash,
            None => 0,
        };
        let entry = BucketEntry { offset, size, hash };
        let index: u64 = lookup.walk.index;
        let mut home: Bucket = lookup.walk.home;
        let mut tail: Vec<u8> = Vec::new();
        match place(&self.header, &mut home, entry, dat_len, &mut tail) {
            Ok(()) => {},
            Err(error) => {
                return Err(error);
            },
        }
        let writes: Vec<Write> = vec![
            Write { file: FileKind::Dat, offset: dat_len, bytes: tail },
            self.write_bucket(index, &home),
        ];
        assert(crate::write::views(writes@) =~= self.entering(
            lookup@,
            size,
            offset,
            dat_len,
        )->Ok_0);
        Ok(writes)
    }

    /// What to write to give a found key another value, once its record, of a
    /// value of `size` bytes, has been appended at `offset`.
    pub fn update(&self, lookup: Lookup, size: u64, offset: u64) -> (writes: Result<
        Vec<Write>,
        Error,
    >)
        requires
            self.ok(),
            lookup@.sound(),
            lookup@.found(),
            lookup@.walk.block_size == self.header.block_size,
            size < LIMIT48,
            offset < LIMIT48,
        ensures
            match self.repointing(lookup@, size, offset) {
                Ok(views) => writes is Ok && crate::write::views(writes->Ok_0@) == views,
                Err(error) => writes == Err::<Vec<Write>, Error>(error),
            },
    {
        if !fits_block(lookup.walk.current(), self.header.block_size) {
            return Err(Error::InvalidBucket);
        }
        let hash: u64 = match lookup.walk.filter {
            Some(hash) => hash,
            None => 0,
        };
        let entry = BucketEntry { offset, size, hash };
        let at: usize = lookup.position();
        let Lookup { walk, key: _, value: _ } = lookup;
        let Walk { home, page, spilled, index, .. } = walk;
        let mut home: Bucket = home;
        let mut spilled: Bucket = spilled;
        let writes: Vec<Write> = if page == 0 {
            home.entries.set(at, entry);
            vec![self.write_bucket(index, &home)]
        } else {
            spilled.entries.set(at, entry);
            vec![self.write_spilled(page, &spilled), self.write_bucket(index, &home)]
        };
        assert(crate::write::views(writes@) =~= self.repointing(lookup@, size, offset)->Ok_0);
        Ok(writes)
    }

    /// What to write to remove a found key.
    pub fn remove(&self, lookup: Lookup) -> (writes: Result<Vec<Write>, Error>)
        requires
            self.ok(),
            lookup@.sound(),
            lookup@.found(),
            lookup@.walk.block_size == self.header.block_size,
        ensures
            match self.removal(lookup@) {
                Ok(views) => writes is Ok && crate::write::views(writes->Ok_0@) == views,
                Err(error) => writes == Err::<Vec<Write>, Error>(error),
            },
    {
        if !fits_block(lookup.walk.current(), self.header.block_size) {
            return Err(Error::InvalidBucket);
        }
        let at: usize = lookup.position();
        let Lookup { walk, key: _, value: _ } = lookup;
        let Walk { home, page, spilled, index, .. } = walk;
        let mut home: Bucket = home;
        let mut spilled: Bucket = spilled;
        let writes: Vec<Write> = if page == 0 {
            let _ = home.entries.remove(at);
            vec![self.write_bucket(index, &home)]
        } else {
            let _ = spilled.entries.remove(at);
            vec![self.write_spilled(page, &spilled)]
        };
        assert(crate::write::views(writes@) =~= self.removal(lookup@)->Ok_0);
        Ok(writes)
    }

    /// Counts a key that was stored.
    pub fn count_added(&mut self)
        requires
            old(self).header.key_count < u64::MAX,
        ensures
            *final(self) == old(self).counting((old(self).header.key_count + 1) as u64),
    {
        self.header.key_count = self.header.key_count + 1;
    }

    /// Counts a key that was removed.
    pub fn count_removed(&mut self)
        ensures
            *final(self) == old(self).counting(
                if old(self).header.key_count > 0 {
                    (old(self).header.key_count - 1) as u64
                } else {
                    0
                },
            ),
    {
        self.header.key_count = self.header.key_count.saturating_sub(1);
    }

    /// Checks the load and starts to split the next bucket if it is over the
    /// load factor.
    pub fn maybe_split(&self) -> (split: Result<Option<Split>, Error>)
        requires
            self.ok(),
        ensures
            if !self.overloaded() {
                split matches Ok(None)
            } else {
                match self.split_start() {
                    Ok(view) => {
                        &&& split matches Ok(Some(started))
                        &&& started@ == view
                        &&& started@.sound()
                    },
                    Err(error) => split == Err::<Option<Split>, Error>(error),
                }
            },
    {
        let capacity: u128 = self.header.bucket_capacity() as u128;
        let buckets: u128 = self.header.bucket_count as u128;
        assert(self.header.bucket_count * self.header.capacity() <= 0x1_0000_0000_0000_0000
            * 3640) by (nonlinear_arith)
            requires
                0 <= self.header.capacity() <= 3640,
        ;
        let total_capacity: u128 = buckets * capacity;
        let places: u128 = if total_capacity > 1 {
            total_capacity
        } else {
            1
        };
        let load: u128 = (self.header.key_count as u128 * 65536) / places;
        if load <= self.header.load_factor as u128 {
            return Ok(None);
        }
        if self.level >= 63 {
            return Err(Error::KeyFileFull);
        }
        assert((self.next + 1) * self.header.block_size <= 0x1_0000_0000_0000_0000 * 0xffff)
            by (nonlinear_arith);
        if (self.next as u128 + 1) * self.header.block_size as u128 > u64::MAX as u128 {
            return Err(Error::UnexpectedEof);
        }
        assert((self.next + 1) * self.header.block_size >= (self.next + 1) * 104)
            by (nonlinear_arith)
            requires
                self.header.block_size >= 104,
        ;
        let split = Split {
            walk: Walk::new(&self.header, self.next, None, true),
            salt: self.header.salt,
            level: self.level,
            next: self.next,
            keep: Vec::new(),
            moved: Vec::new(),
        };
        assert(split@ =~= self.splitting());
        Ok(Some(split))
    }

    /// What to write to complete a split. `dat_len` is the size of the data
    /// file.
    pub fn finish_split(&self, split: &Split, dat_len: u64) -> (writes: Result<Vec<Write>, Error>)
        requires
            self.ok(),
            split@.sound(),
            split@.walk.wanted() is None,
            split@.next == self.next,
        ensures
            match self.splitted(split@, dat_len) {
                Ok(views) => writes is Ok && crate::write::views(writes->Ok_0@) == views,
                Err(error) => writes == Err::<Vec<Write>, Error>(error),
            },
    {
        let buckets: u128 = self.header.bucket_count as u128;
        assert((self.header.bucket_count + 2) * self.header.block_size <= 0x1_0000_0000_0000_0001
            * 0xffff) by (nonlinear_arith)
            requires
                self.header.bucket_count <= 0xffff_ffff_ffff_ffff,
                self.header.block_size <= 0xffff,
        ;
        if (buckets + 2) * self.header.block_size as u128 > MAX_FILE_SIZE as u128 {
            return Err(Error::KeyFileFull);
        }
        let ghost kept = crate::write::spills(self.header, split@.keep.len() as int);
        let ghost gone = crate::write::spills(self.header, split@.moved.len() as int);
        proof {
            self.lemma_growing_bound();
            crate::write::lemma_spills_monotone(self.header, 0, split@.keep.len() as int);
            crate::write::lemma_spills_monotone(self.header, 0, split@.moved.len() as int);
            crate::write::lemma_room_parts(self.header, dat_len as int, kept, gone);
        }
        let mut tail: Vec<u8> = Vec::new();
        let keep: Bucket = match gather(&self.header, &split.keep, dat_len, &mut tail) {
            Ok(bucket) => bucket,
            Err(error) => {
                return Err(error);
            },
        };
        proof {
            crate::write::lemma_gathered(self.header, split@.keep, dat_len as int);
            assert(tail@ =~= crate::write::gathered(self.header, split@.keep, dat_len as int).1);
        }
        let moved: Bucket = match gather(&self.header, &split.moved, dat_len, &mut tail) {
            Ok(bucket) => bucket,
            Err(error) => {
                return Err(error);
            },
        };
        let writes: Vec<Write> = vec![
            Write { file: FileKind::Dat, offset: dat_len, bytes: tail },
            self.write_bucket(split.next, &keep),
            self.write_bucket(self.header.bucket_count, &moved),
        ];
        assert(crate::write::views(writes@) =~= self.splitted(split@, dat_len)->Ok_0);
        Ok(writes)
    }

    /// Counts the bucket that a split has added.
    pub fn advance(&mut self)
        requires
            old(self).ok(),
            old(self).can_grow(),
        ensures
            *final(self) == old(self).grown(),
            final(self).ok(),
    {
        proof {
            self.lemma_growing_bound();
            crate::linear::lemma_power_bound(self.level);
        }
        self.header.bucket_count = self.header.bucket_count + 1;
        self.next = self.next + 1;
        if self.next >= power(self.level) {
            self.level = self.level + 1;
            self.next = 0;
        }
    }
}

} // verus!

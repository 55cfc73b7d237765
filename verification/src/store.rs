//! A store whose two files are held in memory.

use crate::error::Error;
use crate::format::{KeyHeader, KEY_HEADER_SIZE, LIMIT48};
use crate::lookup::Lookup;
use crate::model::Disk;
use crate::search::{search, sort_out, step};
use crate::seed::rand_u64;
use crate::split::Split;
use crate::table::{StoreOptions, Table, MAX_BUCKETS};
use crate::walk::FileKind;
use crate::write::{append_record, Write};
use vstd::prelude::*;

verus! {

/// A key-value store whose two files are held in memory.
///
/// Keys have a fixed size, values any. The data file is only appended to, but
/// for the buckets in its spill records.
pub struct Store {
    table: Table,
    dat: Vec<u8>,
    key: Vec<u8>,
}

impl View for Store {
    type V = Map<Seq<u8>, Seq<u8>>;

    /// The keys and values that the store holds.
    open spec fn view(&self) -> Map<Seq<u8>, Seq<u8>> {
        self.table().contents(self.files())
    }
}

/// Writes bytes at `at`, over what is there or past the end.
fn splice(file: &mut Vec<u8>, at: u64, bytes: &Vec<u8>)
    ensures
        final(file)@ == crate::effects::spliced(old(file)@, at as int, bytes@),
{
    let ghost first = file@;
    put_zeros_to(file, at);
    let ghost padded = file@;
    let mut len: usize = file.len();
    let start: usize = at as usize;
    let mut i: usize = 0;
    while i < bytes.len()
        invariant
            i <= bytes@.len(),
            start <= padded.len(),
            len == file@.len(),
            start + i <= len,
            file@ == crate::effects::spliced(padded, start as int, bytes@.take(i as int)),
        decreases bytes@.len() - i,
    {
        let byte: u8 = bytes[i];
        if start + i < len {
            file.set(start + i, byte);
        } else {
            file.push(byte);
            len = file.len();
        }
        i = i + 1;
        assert(file@ =~= crate::effects::spliced(padded, start as int, bytes@.take(i as int)));
    }
    assert(bytes@.take(bytes@.len() as int) =~= bytes@);
    assert(file@ =~= crate::effects::spliced(first, at as int, bytes@));
}

/// Fills a file up with zeros to a length.
fn put_zeros_to(file: &mut Vec<u8>, len: u64)
    ensures
        final(file)@ == old(file)@ + crate::format::zeros(
            if len > old(file)@.len() {
                (len - old(file)@.len()) as nat
            } else {
                0
            },
        ),
{
    let ghost first = file@;
    let mut count: usize = file.len();
    assert(file@ =~= first + crate::format::zeros(0));
    while (count as u64) < len
        invariant
            count == file@.len(),
            first.len() <= count,
            file@ == first + crate::format::zeros((count - first.len()) as nat),
            count <= len || count == first.len(),
        decreases len - count,
    {
        file.push(0);
        count = file.len();
        assert(file@ =~= first + crate::format::zeros((count - first.len()) as nat));
    }
}

/// Makes a write.
fn apply(dat: &mut Vec<u8>, key: &mut Vec<u8>, write: &Write)
    ensures
        (Disk { dat: final(dat)@, key: final(key)@ }) == crate::effects::written(
            Disk { dat: old(dat)@, key: old(key)@ },
            write@,
        ),
{
    match write.file {
        FileKind::Dat => splice(dat, write.offset, &write.bytes),
        FileKind::Key => splice(key, write.offset, &write.bytes),
    }
}

/// Makes writes, in their order.
fn apply_all(dat: &mut Vec<u8>, key: &mut Vec<u8>, writes: &Vec<Write>)
    ensures
        (Disk { dat: final(dat)@, key: final(key)@ }) == crate::effects::all_written(
            Disk { dat: old(dat)@, key: old(key)@ },
            crate::write::views(writes@),
        ),
{
    let ghost all = crate::write::views(writes@);
    let ghost first = Disk { dat: dat@, key: key@ };
    let mut i: usize = 0;
    assert(all.take(0) =~= Seq::empty());
    while i < writes.len()
        invariant
            i <= writes@.len(),
            all == crate::write::views(writes@),
            (Disk { dat: dat@, key: key@ }) == crate::effects::all_written(
                first,
                all.take(i as int),
            ),
        decreases writes@.len() - i,
    {
        apply(dat, key, &writes[i]);
        assert(all.take(i + 1).drop_last() =~= all.take(i as int));
        assert(all.take(i + 1).last() == writes@[i as int]@);
        i = i + 1;
    }
    assert(all.take(all.len() as int) =~= all);
}

impl Store {
    /// The key file's header and the state of linear hashing.
    pub closed spec fn table(self) -> Table {
        self.table
    }

    /// The bytes of the two files.
    pub closed spec fn files(self) -> Disk {
        Disk { dat: self.dat@, key: self.key@ }
    }

    /// The files are as a store leaves them.
    pub open spec fn intact(self) -> bool {
        self.table().intact(self.files())
    }

    /// The store has the table and the files of another.
    pub open spec fn same(self, other: Store) -> bool {
        self.table() == other.table() && self.files() == other.files()
    }

    /// Looks a key up, and its value if `values`.
    fn find(&self, key: &[u8], values: bool) -> (lookup: Result<Lookup, Error>)
        requires
            key@.len() == self.table().header.key_size,
        ensures
            match self.table().sought(self.files(), key@, values) {
                Ok(view) => lookup is Ok && lookup->Ok_0@ == view && view.sound(),
                Err(error) => lookup == Err::<Lookup, Error>(error),
            },
    {
        if !self.table.is_ok() {
            return Err(Error::InvalidHeader);
        }
        let started: Lookup = match self.table.lookup(key, values) {
            Ok(started) => started,
            Err(error) => {
                return Err(error);
            },
        };
        search(&self.dat, &self.key, started)
    }

    /// Starts to look a key up with its value: reads its bucket.
    fn begin(&self, key: &[u8]) -> (lookup: Result<Lookup, Error>)
        requires
            key@.len() == self.table().header.key_size,
        ensures
            match self.table().begun(self.files(), key@) {
                Ok(view) => lookup is Ok && lookup->Ok_0@ == view && view.sound(),
                Err(error) => lookup == Err::<Lookup, Error>(error),
            },
    {
        if !self.table.is_ok() {
            return Err(Error::InvalidHeader);
        }
        let mut lookup: Lookup = match self.table.lookup(key, true) {
            Ok(started) => started,
            Err(error) => {
                return Err(error);
            },
        };
        match step(&self.dat, &self.key, &mut lookup) {
            Ok(()) => Ok(lookup),
            Err(error) => Err(error),
        }
    }

    /// Creates a store with this identifier and salt.
    pub fn create_with(options: StoreOptions, uid: u64, salt: u64) -> (store: Store)
        ensures
            store.table() == Table::fresh(options, uid, salt),
            store.files() == (Disk {
                dat: store.table().new_dat(),
                key: store.table().new_key(),
            }),
            options.block_size >= KEY_HEADER_SIZE ==> store.intact() && store@ == Map::<
                Seq<u8>,
                Seq<u8>,
            >::empty(),
    {
        let table: Table = Table::create(&options, uid, salt);
        let (dat, key) = table.new_files();
        proof {
            if options.block_size >= KEY_HEADER_SIZE {
                Table::lemma_fresh(options, uid, salt);
            }
        }
        Store { table, dat, key }
    }

    /// Creates a store with an identifier and a salt from the clock.
    pub fn create(options: StoreOptions) -> (store: Store)
        ensures
            exists|nanos: Option<u128>|
                store.table().header.uid == crate::seed::scrambled(
                    #[trigger] crate::seed::reading(nanos),
                ),
            exists|nanos: Option<u128>| #[trigger]
                crate::seed::ticked(nanos) && store.table().header.uid == crate::seed::scrambled(
                    match nanos {
                        Some(count) => (count % 0x1_0000_0000_0000_0000) as u64,
                        None => 0,
                    },
                ),
            exists|nanos: Option<u128>|
                store.table().header.salt == crate::seed::scrambled(
                    #[trigger] crate::seed::reading(nanos),
                ),
            exists|nanos: Option<u128>| #[trigger]
                crate::seed::ticked(nanos) && store.table().header.salt == crate::seed::scrambled(
                    match nanos {
                        Some(count) => (count % 0x1_0000_0000_0000_0000) as u64,
                        None => 0,
                    },
                ),
            store.table() == Table::fresh(
                options,
                store.table().header.uid,
                store.table().header.salt,
            ),
            store.files() == (Disk {
                dat: store.table().new_dat(),
                key: store.table().new_key(),
            }),
            options.block_size >= KEY_HEADER_SIZE ==> store.intact() && store@ == Map::<
                Seq<u8>,
                Seq<u8>,
            >::empty(),
    {
        let uid: u64 = rand_u64();
        let salt: u64 = rand_u64();
        Store::create_with(options, uid, salt)
    }

    /// Opens the store that a data file and a key file hold.
    pub fn open(dat: Vec<u8>, key: Vec<u8>) -> (store: Result<Store, Error>)
        ensures
            match Table::opened(key@) {
                Ok(table) => {
                    &&& store is Ok
                    &&& store->Ok_0.table() == table
                    &&& store->Ok_0.files() == (Disk { dat: dat@, key: key@ })
                },
                Err(error) => store == Err::<Store, Error>(error),
            },
    {
        let header: KeyHeader = match KeyHeader::read_from(key.as_slice()) {
            Ok(header) => header,
            Err(error) => {
                return Err(error);
            },
        };
        if header.bucket_count > MAX_BUCKETS {
            return Err(Error::InvalidHeader);
        }
        Ok(Store { table: Table::open(header), dat, key })
    }

    /// The data file and the key file.
    pub fn into_files(self) -> (files: (Vec<u8>, Vec<u8>))
        ensures
            (Disk { dat: files.0@, key: files.1@ }) == self.files(),
    {
        (self.dat, self.key)
    }

    /// Fetches the value of a key; none where the key is not stored.
    pub fn fetch(&self, key: &[u8]) -> (value: Result<Option<Vec<u8>>, Error>)
        requires
            key@.len() == self.table().header.key_size,
        ensures
            match self.table().fetching(self.files(), key@) {
                Ok(None) => value matches Ok(None),
                Ok(Some(bytes)) => value matches Ok(Some(got)) && got@ == bytes,
                Err(error) => value == Err::<Option<Vec<u8>>, Error>(error),
            },
            self.intact() ==> if self@.contains_key(key@) {
                value matches Ok(Some(got)) && got@ == self@[key@]
            } else {
                value matches Ok(None)
            },
    {
        proof {
            if self.intact() {
                reveal(Table::intact);
                self.table().lemma_sought(self.files(), key@, true);
            }
        }
        match self.find(key, true) {
            Ok(lookup) => Ok(lookup.value),
            Err(error) => Err(error),
        }
    }

    /// Whether a key is stored. No value is read.
    pub fn contains(&self, key: &[u8]) -> (found: Result<bool, Error>)
        requires
            key@.len() == self.table().header.key_size,
        ensures
            found == self.table().finding(self.files(), key@),
            self.intact() ==> found == Ok::<bool, Error>(self@.contains_key(key@)),
    {
        proof {
            if self.intact() {
                reveal(Table::intact);
                self.table().lemma_sought(self.files(), key@, false);
            }
        }
        match self.find(key, false) {
            Ok(lookup) => Ok(lookup.is_found()),
            Err(error) => Err(error),
        }
    }

    /// How many keys are stored.
    pub fn key_count(&self) -> (count: u64)
        ensures
            count == self.table().header.key_count,
            self.intact() ==> count == self@.len(),
            self.intact() ==> count == crate::plain::number_at(self.files().key, 56, 8),
    {
        proof {
            if self.intact() {
                crate::conduct::law_files_state_header(self.table(), self.files());
            }
        }
        reveal(Table::intact);
        self.table.header.key_count
    }

    /// How many buckets there are.
    pub fn bucket_count(&self) -> (count: u64)
        ensures
            count == self.table().header.bucket_count,
            self.intact() ==> {
                &&& count == crate::plain::number_at(self.files().key, 48, 8)
                &&& self.files().key.len() == (count + 1) * crate::plain::number_at(
                    self.files().key,
                    44,
                    2,
                )
            },
    {
        proof {
            if self.intact() {
                crate::conduct::law_files_state_header(self.table(), self.files());
            }
        }
        self.table.header.bucket_count
    }

    /// How many bytes a key has.
    pub fn key_size(&self) -> (size: usize)
        ensures
            size == self.table().header.key_size,
            self.intact() ==> size == crate::plain::number_at(self.files().key, 26, 2),
    {
        proof {
            if self.intact() {
                crate::conduct::law_files_state_header(self.table(), self.files());
            }
        }
        self.table.header.key_size as usize
    }

    /// Splits the next bucket if the load is over the load factor.
    fn maybe_split(&mut self) -> (outcome: Result<(), Error>)
        requires
            old(self).table().ok(),
        ensures
            (outcome, final(self).table(), final(self).files()) == old(self).table().balancing(
                old(self).files(),
            ),
    {
        let started: Split = match self.table.maybe_split() {
            Ok(Some(started)) => started,
            Ok(None) => {
                return Ok(());
            },
            Err(error) => {
                return Err(error);
            },
        };
        let split: Split = match sort_out(&self.dat, &self.key, started) {
            Ok(split) => split,
            Err(error) => {
                return Err(error);
            },
        };
        proof {
            crate::search::lemma_sorted_out_state(
                self.files(),
                self.table.splitting(),
                self.dat@.len(),
            );
        }
        let len: usize = self.dat.len();
        let writes: Vec<Write> = match self.table.finish_split(&split, len as u64) {
            Ok(writes) => writes,
            Err(error) => {
                return Err(error);
            },
        };
        apply_all(&mut self.dat, &mut self.key, &writes);
        self.table.advance();
        let header: Write = self.table.write_key_header();
        apply(&mut self.dat, &mut self.key, &header);
        Ok(())
    }

    /// Stores a key that was not found.
    fn add_key(&mut self, lookup: Lookup, value: &[u8]) -> (outcome: Result<(), Error>)
        requires
            old(self).table().ok(),
            lookup@.sound(),
            lookup@.missing(),
            lookup@.walk.block_size == old(self).table().header.block_size,
        ensures
            (outcome, final(self).table(), final(self).files()) == old(self).table().adding(
                old(self).files(),
                lookup@,
                value@,
            ),
    {
        let len: usize = self.dat.len();
        if self.table.header.key_count == u64::MAX {
            return Err(Error::KeyFileFull);
        }
        let writes: Vec<Write> = match self.table.insert(lookup, value, len as u64) {
            Ok(writes) => writes,
            Err(error) => {
                return Err(error);
            },
        };
        apply_all(&mut self.dat, &mut self.key, &writes);
        self.table.count_added();
        let header: Write = self.table.write_key_header();
        apply(&mut self.dat, &mut self.key, &header);
        self.maybe_split()
    }

    /// Stores a key that was not found, whose record, of a value of `size`
    /// bytes, stands at `offset`.
    fn enter_key(&mut self, lookup: Lookup, size: u64, offset: u64) -> (outcome: Result<(), Error>)
        requires
            old(self).table().ok(),
            lookup@.sound(),
            lookup@.missing(),
            lookup@.walk.block_size == old(self).table().header.block_size,
            size < LIMIT48,
            offset < LIMIT48,
        ensures
            (outcome, final(self).table(), final(self).files()) == old(self).table().entered(
                old(self).files(),
                lookup@,
                size,
                offset,
            ),
    {
        if self.table.header.key_count == u64::MAX {
            return Err(Error::KeyFileFull);
        }
        let len: usize = self.dat.len();
        let writes: Vec<Write> = match self.table.enter(lookup, size, offset, len as u64) {
            Ok(writes) => writes,
            Err(error) => {
                return Err(error);
            },
        };
        apply_all(&mut self.dat, &mut self.key, &writes);
        self.table.count_added();
        let header: Write = self.table.write_key_header();
        apply(&mut self.dat, &mut self.key, &header);
        self.maybe_split()
    }

    /// Stores a key with a value. Returns whether it did: a key that is stored
    /// already keeps its value.
    pub fn insert(&mut self, key: &[u8], value: &[u8]) -> (inserted: Result<bool, Error>)
        requires
            key@.len() == old(self).table().header.key_size,
        ensures
            (inserted, final(self).table(), final(self).files()) == old(self).table().inserting(
                old(self).files(),
                key@,
                value@,
            ),
            old(self).intact() ==> final(self).intact() && if old(self)@.contains_key(key@) {
                &&& inserted == Ok::<bool, Error>(false)
                &&& final(self).same(*old(self))
            } else {
                match old(self).table().storing(old(self).files(), key@, value@) {
                    Err(error) => {
                        &&& inserted == Err::<bool, Error>(error)
                        &&& final(self).same(*old(self))
                    },
                    Ok(_) => {
                        let (t1, d1) = old(self).table().stored(old(self).files(), key@, value@);
                        &&& final(self)@ == old(self)@.insert(key@, value@)
                        &&& (final(self).table(), final(self).files()) == t1.after_split(d1)
                        &&& inserted == match t1.split_error(d1) {
                            None => Ok::<bool, Error>(true),
                            Some(error) => Err(error),
                        }
                    },
                }
            },
    {
        proof {
            if self.intact() {
                self.table().lemma_inserting(self.files(), key@, value@);
            }
            self.table().lemma_sought_state(self.files(), key@, true);
        }
        let lookup: Lookup = match self.find(key, true) {
            Ok(lookup) => lookup,
            Err(error) => {
                return Err(error);
            },
        };
        if lookup.is_found() {
            return Ok(false);
        }
        match self.add_key(lookup, value) {
            Ok(()) => Ok(true),
            Err(error) => Err(error),
        }
    }

    /// Stores a key with a value, in place of the value that it has if it is
    /// stored already. The old value stays in the data file as dead space.
    pub fn upsert(&mut self, key: &[u8], value: &[u8]) -> (outcome: Result<(), Error>)
        requires
            key@.len() == old(self).table().header.key_size,
        ensures
            (outcome, final(self).table(), final(self).files()) == old(self).table().upserting(
                old(self).files(),
                key@,
                value@,
            ),
            old(self).intact() ==> final(self).intact() && if !crate::write::recordable(
                key@,
                value@,
                old(self).files().dat.len() as int,
            ) {
                &&& outcome == Err::<(), Error>(Error::DataFileFull)
                &&& final(self).same(*old(self))
            } else if old(self)@.contains_key(key@) {
                &&& outcome == Ok::<(), Error>(())
                &&& final(self).table() == old(self).table()
                &&& final(self)@ == old(self)@.insert(key@, value@)
            } else {
                match old(self).table().storing(old(self).files(), key@, value@) {
                    Err(error) => {
                        &&& outcome == Err::<(), Error>(error)
                        &&& final(self).table() == old(self).table()
                        &&& final(self).files() == Table::recorded(
                            old(self).files(),
                            key@,
                            value@,
                        )
                        &&& final(self)@ == old(self)@
                    },
                    Ok(_) => {
                        let (t1, d1) = old(self).table().stored(old(self).files(), key@, value@);
                        &&& final(self)@ == old(self)@.insert(key@, value@)
                        &&& (final(self).table(), final(self).files()) == t1.after_split(d1)
                        &&& outcome == match t1.split_error(d1) {
                            None => Ok::<(), Error>(()),
                            Some(error) => Err(error),
                        }
                    },
                }
            },
    {
        let ghost before = self.files();
        proof {
            if self.intact() {
                self.table().lemma_upserting(self.files(), key@, value@);
            }
            self.table().lemma_begun_state(self.files(), key@);
        }
        let lookup: Lookup = match self.begin(key) {
            Ok(lookup) => lookup,
            Err(error) => {
                return Err(error);
            },
        };
        let len: usize = self.dat.len();
        let offset: u64 = len as u64;
        let record: Write = match append_record(key, value, offset) {
            Ok(record) => record,
            Err(error) => {
                return Err(error);
            },
        };
        apply(&mut self.dat, &mut self.key, &record);
        proof {
            self.table().lemma_upsert_state(before, self.files(), key@);
        }
        let lookup: Lookup = match search(&self.dat, &self.key, lookup) {
            Ok(lookup) => lookup,
            Err(error) => {
                return Err(error);
            },
        };
        let size: u64 = value.len() as u64;
        if !lookup.is_found() {
            return self.enter_key(lookup, size, offset);
        }
        match self.table.update(lookup, size, offset) {
            Ok(writes) => {
                apply_all(&mut self.dat, &mut self.key, &writes);
                Ok(())
            },
            Err(error) => Err(error),
        }
    }

    /// Removes a key. Returns whether it was stored. Its value stays in the
    /// data file, but is no longer found.
    pub fn remove(&mut self, key: &[u8]) -> (removed: Result<bool, Error>)
        requires
            key@.len() == old(self).table().header.key_size,
        ensures
            (removed, final(self).table(), final(self).files()) == old(self).table().removing(
                old(self).files(),
                key@,
            ),
            old(self).intact() ==> {
                &&& final(self).intact()
                &&& final(self)@ == old(self)@.remove(key@)
                &&& removed == Ok::<bool, Error>(old(self)@.contains_key(key@))
                &&& !old(self)@.contains_key(key@) ==> final(self).same(*old(self))
            },
    {
        proof {
            if self.intact() {
                self.table().lemma_removing(self.files(), key@);
            }
            self.table().lemma_sought_state(self.files(), key@, false);
        }
        let lookup: Lookup = match self.find(key, false) {
            Ok(lookup) => lookup,
            Err(error) => {
                return Err(error);
            },
        };
        if !lookup.is_found() {
            return Ok(false);
        }
        let writes: Vec<Write> = match self.table.remove(lookup) {
            Ok(writes) => writes,
            Err(error) => {
                return Err(error);
            },
        };
        apply_all(&mut self.dat, &mut self.key, &writes);
        self.table.count_removed();
        let header: Write = self.table.write_key_header();
        apply(&mut self.dat, &mut self.key, &header);
        Ok(true)
    }
}

} // verus!

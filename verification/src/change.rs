//! What each operation returns and how it changes the table and the files,
//! whatever the files hold; and what that means for what is stored.

use crate::error::Error;
use crate::format::MAX_DAT_SIZE;
use crate::lookup::LookupView;
use crate::model::Disk;
use crate::table::Table;
use vstd::prelude::*;

verus! {

impl Table {
    /// What looking a key up comes to; with its value, or without reading it.
    pub open spec fn sought(self, d: Disk, key: Seq<u8>, values: bool) -> Result<
        LookupView,
        Error,
    > {
        if !self.ok() {
            Err(Error::InvalidHeader)
        } else if !self.reaches(self.hash(key)) {
            Err(Error::UnexpectedEof)
        } else {
            crate::search::searched(d, self.looking(key, self.hash(key), values), d.dat.len())
        }
    }

    /// What fetching a key returns.
    pub open spec fn fetching(self, d: Disk, key: Seq<u8>) -> Result<Option<Seq<u8>>, Error> {
        match self.sought(d, key, true) {
            Ok(lookup) => Ok(lookup.value),
            Err(error) => Err(error),
        }
    }

    /// What checking for a key returns. No value is read.
    pub open spec fn finding(self, d: Disk, key: Seq<u8>) -> Result<bool, Error> {
        match self.sought(d, key, false) {
            Ok(lookup) => Ok(lookup.found()),
            Err(error) => Err(error),
        }
    }

    /// The files with this table's header.
    pub open spec fn headed(self, d: Disk) -> Disk {
        crate::effects::written(d, self.header_block())
    }

    /// Splitting the next bucket, if the load is over the load factor.
    pub open spec fn balancing(self, d: Disk) -> (Result<(), Error>, Table, Disk) {
        if !self.overloaded() {
            (Ok(()), self, d)
        } else if let Err(error) = self.split_start() {
            (Err(error), self, d)
        } else {
            match crate::search::sorted_out(d, self.splitting(), d.dat.len()) {
                Err(error) => (Err(error), self, d),
                Ok(split) => match self.splitted(split, d.dat.len() as u64) {
                    Err(error) => (Err(error), self, d),
                    Ok(writes) => (
                        Ok(()),
                        self.grown(),
                        self.grown().headed(crate::effects::all_written(d, writes)),
                    ),
                },
            }
        }
    }

    /// Storing a key that was not found.
    pub open spec fn adding(self, d: Disk, lookup: LookupView, value: Seq<u8>) -> (
        Result<(), Error>,
        Table,
        Disk,
    ) {
        if self.header.key_count == u64::MAX {
            (Err(Error::KeyFileFull), self, d)
        } else {
            match self.insertion(lookup, value, d.dat.len() as u64) {
                Err(error) => (Err(error), self, d),
                Ok(writes) => {
                    let counted = self.counting((self.header.key_count + 1) as u64);
                    counted.balancing(counted.headed(crate::effects::all_written(d, writes)))
                },
            }
        }
    }

    /// Inserting a key: what it returns, and the table and the files after it.
    pub open spec fn inserting(self, d: Disk, key: Seq<u8>, value: Seq<u8>) -> (
        Result<bool, Error>,
        Table,
        Disk,
    ) {
        match self.sought(d, key, true) {
            Err(error) => (Err(error), self, d),
            Ok(lookup) => if lookup.found() {
                (Ok(false), self, d)
            } else {
                let (outcome, table, files) = self.adding(d, lookup, value);
                match outcome {
                    Ok(()) => (Ok(true), table, files),
                    Err(error) => (Err(error), table, files),
                }
            },
        }
    }

    /// What looking a key up comes to once its bucket has been read.
    pub open spec fn begun(self, d: Disk, key: Seq<u8>) -> Result<LookupView, Error> {
        let started = self.looking(key, self.hash(key), true);
        let request = started.walk.wanted()->Some_0;
        if !self.ok() {
            Err(Error::InvalidHeader)
        } else if !self.reaches(self.hash(key)) || !crate::progress::available(d, request) {
            Err(Error::UnexpectedEof)
        } else {
            started.given(crate::progress::answer(d, request))
        }
    }

    /// The files with the record of a key and a value at the end of the data
    /// file.
    pub open spec fn recorded(d: Disk, key: Seq<u8>, value: Seq<u8>) -> Disk {
        crate::effects::written(
            d,
            crate::write::appending(key, value, d.dat.len() as u64),
        )
    }

    /// Storing a key that was not found, whose record stands at `offset`.
    pub open spec fn entered(self, d: Disk, lookup: LookupView, size: u64, offset: u64) -> (
        Result<(), Error>,
        Table,
        Disk,
    ) {
        if self.header.key_count == u64::MAX {
            (Err(Error::KeyFileFull), self, d)
        } else {
            match self.entering(lookup, size, offset, d.dat.len() as u64) {
                Err(error) => (Err(error), self, d),
                Ok(writes) => {
                    let counted = self.counting((self.header.key_count + 1) as u64);
                    counted.balancing(counted.headed(crate::effects::all_written(d, writes)))
                },
            }
        }
    }

    /// Inserting a key or giving it another value: what it returns, and the
    /// table and the files after it. The record is appended once the key's
    /// bucket has been read, before the key is looked for; where that fails,
    /// the record stays behind.
    pub open spec fn upserting(self, d: Disk, key: Seq<u8>, value: Seq<u8>) -> (
        Result<(), Error>,
        Table,
        Disk,
    ) {
        let size = value.len() as u64;
        let offset = d.dat.len() as u64;
        let d1 = Table::recorded(d, key, value);
        match self.begun(d, key) {
            Err(error) => (Err(error), self, d),
            Ok(begun) => if !crate::write::recordable(key, value, d.dat.len() as int) {
                (Err(Error::DataFileFull), self, d)
            } else {
                match crate::search::searched(d1, begun, d1.dat.len()) {
                    Err(error) => (Err(error), self, d1),
                    Ok(lookup) => if !lookup.found() {
                        self.entered(d1, lookup, size, offset)
                    } else {
                        match self.repointing(lookup, size, offset) {
                            Err(error) => (Err(error), self, d1),
                            Ok(writes) => (
                                Ok(()),
                                self,
                                crate::effects::all_written(d1, writes),
                            ),
                        }
                    },
                }
            },
        }
    }

    /// Removing a key: what it returns, and the table and the files after it.
    pub open spec fn removing(self, d: Disk, key: Seq<u8>) -> (Result<bool, Error>, Table, Disk) {
        match self.sought(d, key, false) {
            Err(error) => (Err(error), self, d),
            Ok(lookup) => if !lookup.found() {
                (Ok(false), self, d)
            } else {
                match self.removal(lookup) {
                    Err(error) => (Err(error), self, d),
                    Ok(writes) => {
                        let counted = self.counting(
                            if self.header.key_count > 0 {
                                (self.header.key_count - 1) as u64
                            } else {
                                0
                            },
                        );
                        (
                            Ok(true),
                            counted,
                            counted.headed(crate::effects::all_written(d, writes)),
                        )
                    },
                }
            },
        }
    }

    /// The bytes that the record of a value takes in the data file.
    pub open spec fn record_size(self, value: Seq<u8>) -> int {
        6 + self.header.key_size + value.len()
    }

    pub proof fn lemma_looking_sound(self, key: Seq<u8>, hash: u64, values: bool)
        requires
            self.ok(),
            self.reaches(hash),
            key.len() == self.header.key_size,
        ensures
            self.looking(key, hash, values).sound(),
    {
        crate::linear::lemma_index_bound(self.level, self.next, hash);
        let index = self.index(hash);
        assert((index + 1) * self.header.block_size >= (index + 1) * 104) by (nonlinear_arith)
            requires
                self.header.block_size >= 104,
                index >= 0,
        ;
    }

    pub proof fn lemma_splitting_sound(self)
        requires
            self.ok(),
            self.split_start() is Ok,
        ensures
            self.splitting().sound(),
    {
        assert((self.next + 1) * self.header.block_size >= (self.next + 1) * 104)
            by (nonlinear_arith)
            requires
                self.header.block_size >= 104,
        ;
    }

    /// What is known of a lookup at its end, whatever the files hold.
    pub proof fn lemma_sought_state(self, d: Disk, key: Seq<u8>, values: bool)
        requires
            key.len() == self.header.key_size,
        ensures
            self.sought(d, key, values) matches Ok(l) ==> {
                &&& self.ok()
                &&& l.sound()
                &&& l.found() || l.missing()
                &&& l.walk.block_size == self.header.block_size
            },
    {
        if self.ok() && self.reaches(self.hash(key)) {
            self.lemma_looking_sound(key, self.hash(key), values);
            crate::search::lemma_searched_state(
                d,
                self.looking(key, self.hash(key), values),
                d.dat.len(),
            );
        }
    }

    /// In intact files, looking a key up finds it if it is stored.
    pub proof fn lemma_sought(self, d: Disk, key: Seq<u8>, values: bool)
        requires
            self.well_formed(d),
            key.len() == self.header.key_size,
        ensures
            self.sought(d, key, values) matches Ok(l) && {
                &&& crate::progress::searching(self, d, l)
                &&& crate::ops::standing(self, d, l.walk)
                &&& l.key == key
                &&& if self.contents(d).contains_key(key) {
                    &&& l.value is Some
                    &&& values ==> l.value == Some(self.contents(d)[key])
                    &&& crate::ops::matched(self, d, l)
                } else {
                    &&& l.value is None
                    &&& l.missing()
                }
            },
    {
        let l = self.looking(key, self.hash(key), values);
        self.lemma_regular(self.hash(key));
        self.lemma_looking_sound(key, self.hash(key), values);
        crate::progress::lemma_lookup_start(self, d, key, values);
        let i = l.walk.index as int;
        assert(self.bucket_ok(d, i));
        crate::search::lemma_pages_bound(d.dat, self.bs(), self.home(d, i)->Some_0.spill);
        crate::search::lemma_searched(self, d, l, d.dat.len());
        let end = self.sought(d, key, values)->Ok_0;
        crate::progress::lemma_lookup_over(self, d, end);
    }

    /// In intact files, a bucket is split where the load is over the load
    /// factor and there is room for it, and what is stored stays.
    pub proof fn lemma_balancing(self, d: Disk)
        requires
            self.intact(d),
        ensures
            ({
                let (outcome, t2, d2) = self.balancing(d);
                &&& (t2, d2) == self.after_split(d)
                &&& outcome == match self.split_error(d) {
                    None => Ok::<(), Error>(()),
                    Some(error) => Err(error),
                }
                &&& t2.intact(d2)
                &&& t2.contents(d2) == self.contents(d)
            }),
    {
        reveal(Table::intact);
        if self.overloaded() {
            let sp = self.splitting();
            let i = self.next as int;
            self.lemma_regular(0);
            self.lemma_level_bound();
            vstd::arithmetic::power2::lemma_pow2_pos(self.level as nat);
            self.lemma_block_offset(i);
            self.lemma_splitting_sound();
            crate::progress::lemma_split_start(self, d);
            assert(self.bucket_ok(d, i));
            crate::search::lemma_pages_bound(d.dat, self.bs(), self.home(d, i)->Some_0.spill);
            crate::search::lemma_sorted_out(self, d, sp, d.dat.len());
            let end = crate::search::sorted_out(d, sp, d.dat.len())->Ok_0;
            crate::progress::lemma_split_over(self, d, end);
            self.lemma_after_split(d, end);
        }
    }

    /// Storing a key that intact files do not store.
    pub proof fn lemma_adding(self, d: Disk, l: LookupView, value: Seq<u8>)
        requires
            self.intact(d),
            crate::progress::searching(self, d, l),
            crate::ops::standing(self, d, l.walk),
            !self.contents(d).contains_key(l.key),
        ensures
            ({
                let (outcome, t2, d2) = self.adding(d, l, value);
                &&& t2.intact(d2)
                &&& match self.storing(d, l.key, value) {
                    Err(error) => (outcome, t2, d2) == (Err::<(), Error>(error), self, d),
                    Ok(_) => {
                        let (t1, d1) = self.stored(d, l.key, value);
                        &&& (t2, d2) == t1.after_split(d1)
                        &&& outcome == match t1.split_error(d1) {
                            None => Ok::<(), Error>(()),
                            Some(error) => Err(error),
                        }
                        &&& t2.contents(d2) == self.contents(d).insert(l.key, value)
                    },
                }
            }),
    {
        reveal(Table::intact);
        self.lemma_key_count_bound(d);
        self.lemma_stored(d, l, value);
        if self.storing(d, l.key, value) is Ok {
            let (t1, d1) = self.stored(d, l.key, value);
            t1.lemma_balancing(d1);
        }
    }

    /// Inserting a key into intact files.
    pub proof fn lemma_inserting(self, d: Disk, key: Seq<u8>, value: Seq<u8>)
        requires
            self.intact(d),
            key.len() == self.header.key_size,
        ensures
            ({
                let (outcome, t2, d2) = self.inserting(d, key, value);
                &&& t2.intact(d2)
                &&& if self.contents(d).contains_key(key) {
                    (outcome, t2, d2) == (Ok::<bool, Error>(false), self, d)
                } else {
                    match self.storing(d, key, value) {
                        Err(error) => (outcome, t2, d2) == (Err::<bool, Error>(error), self, d),
                        Ok(_) => {
                            let (t1, d1) = self.stored(d, key, value);
                            &&& (t2, d2) == t1.after_split(d1)
                            &&& outcome == match t1.split_error(d1) {
                                None => Ok::<bool, Error>(true),
                                Some(error) => Err(error),
                            }
                            &&& t2.contents(d2) == self.contents(d).insert(key, value)
                        },
                    }
                }
            }),
    {
        reveal(Table::intact);
        self.lemma_sought(d, key, true);
        if !self.contents(d).contains_key(key) {
            self.lemma_adding(d, self.sought(d, key, true)->Ok_0, value);
        }
    }

    /// What is known of a lookup once its bucket has been read, whatever the
    /// files hold.
    pub proof fn lemma_begun_state(self, d: Disk, key: Seq<u8>)
        requires
            key.len() == self.header.key_size,
        ensures
            self.begun(d, key) matches Ok(l) ==> {
                &&& self.ok()
                &&& l.sound()
                &&& l.key == key
                &&& l.walk.block_size == self.header.block_size
            },
            self.sought(d, key, true) == match self.begun(d, key) {
                Ok(l) => crate::search::searched(d, l, d.dat.len()),
                Err(error) => Err(error),
            },
    {
        let hash = self.hash(key);
        let started = self.looking(key, hash, true);
        if self.ok() && self.reaches(hash) {
            let request = started.walk.wanted()->Some_0;
            let bytes = crate::progress::answer(d, request);
            self.lemma_looking_sound(key, hash, true);
            if crate::progress::available(d, request) && started.given(bytes) is Ok {
                crate::search::lemma_lookup_moves(started, bytes, d.dat.len());
            }
        }
    }

    /// What is known of a lookup of `upserting` at its end, whatever the files
    /// hold.
    pub proof fn lemma_upsert_state(self, d: Disk, d1: Disk, key: Seq<u8>)
        requires
            key.len() == self.header.key_size,
            self.begun(d, key) is Ok,
        ensures
            crate::search::searched(d1, self.begun(d, key)->Ok_0, d1.dat.len()) matches Ok(l) ==> {
                &&& l.sound()
                &&& l.found() || l.missing()
                &&& l.walk.block_size == self.header.block_size
            },
    {
        self.lemma_begun_state(d, key);
        crate::search::lemma_searched_state(d1, self.begun(d, key)->Ok_0, d1.dat.len());
    }

    /// Making the record first makes no difference in the end.
    pub proof fn lemma_recorded_first(self, d: Disk, l: LookupView, value: Seq<u8>)
        requires
            d.dat.len() <= u64::MAX,
            crate::write::recordable(l.key, value, d.dat.len() as int),
        ensures
            ({
                let d1 = Table::recorded(d, l.key, value);
                let len = d.dat.len() as u64;
                let size = value.len() as u64;
                &&& d1.key == d.key
                &&& d1.dat == d.dat + crate::write::data_record(l.key, value)
                &&& d1.dat.len() == d.dat.len() + 6 + l.key.len() + value.len()
                &&& match (
                    self.insertion(l, value, len),
                    self.entering(l, size, len, d1.dat.len() as u64),
                ) {
                    (Ok(all), Ok(rest)) => crate::effects::all_written(d, all)
                        == crate::effects::all_written(d1, rest),
                    (Err(e), Err(f)) => e == f,
                    _ => false,
                }
                &&& match (self.replacement(l, value, len), self.repointing(l, size, len)) {
                    (Ok(all), Ok(rest)) => crate::effects::all_written(d, all)
                        == crate::effects::all_written(d1, rest),
                    (Err(e), Err(f)) => e == f,
                    _ => false,
                }
            }),
    {
        broadcast use crate::codec::lemma_be_bytes_len;

        let d1 = Table::recorded(d, l.key, value);
        let len = d.dat.len() as u64;
        let size = value.len() as u64;
        let record = crate::write::data_record(l.key, value);
        assert(d1.dat =~= d.dat + record);
        if let Ok(all) = self.insertion(l, value, len) {
            let rest = self.entering(l, size, len, d1.dat.len() as u64)->Ok_0;
            crate::effects::lemma_two_written(d, all);
            crate::effects::lemma_two_written(d1, rest);
            assert(crate::effects::written(d, all[0]).dat =~= crate::effects::written(
                d1,
                rest[0],
            ).dat);
        }
        if let Ok(all) = self.replacement(l, value, len) {
            let rest = self.repointing(l, size, len)->Ok_0;
            if l.walk.page == 0 {
                crate::effects::lemma_two_written(d, all);
                reveal_with_fuel(crate::effects::all_written, 2);
                assert(rest.drop_last() =~= Seq::empty());
            } else {
                crate::effects::lemma_three_written(d, all);
                crate::effects::lemma_two_written(d1, rest);
            }
        }
    }

    /// A record that no entry leads to leaves intact files intact, and what
    /// they store as it was.
    pub proof fn lemma_dead_record(self, d: Disk, key: Seq<u8>, value: Seq<u8>)
        requires
            self.intact(d),
            crate::write::recordable(key, value, d.dat.len() as int),
        ensures
            self.intact(Table::recorded(d, key, value)),
            self.contents(Table::recorded(d, key, value)) == self.contents(d),
    {
        broadcast use crate::codec::lemma_be_bytes_len;

        reveal(Table::intact);
        let d1 = Table::recorded(d, key, value);
        let none = Set::<int>::empty();
        assert(d1.dat =~= d.dat + crate::write::data_record(key, value));
        assert(crate::evolve::rebuilt(self, d, self, d1, none, 0, 0)) by {
            reveal(crate::evolve::rebuilt);
        }
        crate::evolve::lemma_rebuilt(self, d, self, d1, none, 0, 0);
        assert forall|x: crate::bucket::BucketEntry| #[trigger]
            self.listed(d1, x) <==> self.listed(d, x) by {
            crate::evolve::lemma_rebuilt_lists(self, d, self, d1, none, 0, 0, x);
        }
        crate::effects::lemma_contents_same(self, d, self, d1, none, 0, 0);
    }

    /// Inserting a key into intact files or giving it another value.
    pub proof fn lemma_upserting(self, d: Disk, key: Seq<u8>, value: Seq<u8>)
        requires
            self.intact(d),
            key.len() == self.header.key_size,
        ensures
            ({
                let (outcome, t2, d2) = self.upserting(d, key, value);
                &&& t2.intact(d2)
                &&& if !crate::write::recordable(key, value, d.dat.len() as int) {
                    (outcome, t2, d2) == (Err::<(), Error>(Error::DataFileFull), self, d)
                } else if self.contents(d).contains_key(key) {
                    &&& outcome == Ok::<(), Error>(())
                    &&& t2 == self
                    &&& t2.contents(d2) == self.contents(d).insert(key, value)
                } else {
                    match self.storing(d, key, value) {
                        Err(error) => {
                            &&& outcome == Err::<(), Error>(error)
                            &&& t2 == self
                            &&& d2 == Table::recorded(d, key, value)
                            &&& t2.contents(d2) == self.contents(d)
                        },
                        Ok(_) => {
                            let (t1, d1) = self.stored(d, key, value);
                            &&& (t2, d2) == t1.after_split(d1)
                            &&& outcome == match t1.split_error(d1) {
                                None => Ok::<(), Error>(()),
                                Some(error) => Err(error),
                            }
                            &&& t2.contents(d2) == self.contents(d).insert(key, value)
                        },
                    }
                }
            }),
    {
        assert(self.well_formed(d)) by {
            reveal(Table::intact);
        }
        self.lemma_sought(d, key, true);
        self.lemma_begun_state(d, key);
        let l = self.sought(d, key, true)->Ok_0;
        if crate::write::recordable(key, value, d.dat.len() as int) {
            self.lemma_recorded_first(d, l, value);
            self.lemma_upsert_found(d, key, value);
            if self.contents(d).contains_key(key) {
                self.lemma_replacing(d, l, value);
            } else {
                self.lemma_key_count_bound(d);
                self.lemma_stored(d, l, value);
                self.lemma_dead_record(d, key, value);
                if self.storing(d, key, value) is Ok {
                    let (t3, d3) = self.stored(d, key, value);
                    t3.lemma_balancing(d3);
                }
            }
        }
    }

    /// In intact files the key is found as if its record were not there yet.
    pub proof fn lemma_upsert_found(self, d: Disk, key: Seq<u8>, value: Seq<u8>)
        requires
            self.well_formed(d),
            key.len() == self.header.key_size,
            crate::write::recordable(key, value, d.dat.len() as int),
        ensures
            ({
                let d1 = Table::recorded(d, key, value);
                &&& self.begun(d, key) is Ok
                &&& crate::search::searched(d1, self.begun(d, key)->Ok_0, d1.dat.len())
                    == self.sought(d, key, true)
            }),
            self.contents(d).contains_key(key) ==> ({
                let l = self.sought(d, key, true)->Ok_0;
                self.replacement(l, value, d.dat.len() as u64) matches Ok(writes)
                    && self.upserting(d, key, value).2 == crate::effects::all_written(d, writes)
            }),
    {
        self.lemma_sought(d, key, true);
        self.lemma_begun_state(d, key);
        let l = self.sought(d, key, true)->Ok_0;
        let d1 = Table::recorded(d, key, value);
        self.lemma_recorded_first(d, l, value);
        crate::search::lemma_searched_grown(
            d,
            d1,
            self.begun(d, key)->Ok_0,
            d.dat.len(),
            d1.dat.len(),
        );
        crate::ops::lemma_standing(self, d, l.walk);
    }

    /// Giving a key of intact files another value.
    proof fn lemma_replacing(self, d: Disk, l: LookupView, value: Seq<u8>)
        requires
            self.intact(d),
            crate::ops::matched(self, d, l),
            self.contents(d).contains_key(l.key),
            crate::write::recordable(l.key, value, d.dat.len() as int),
        ensures
            self.replacement(l, value, d.dat.len() as u64) matches Ok(writes) && {
                let d2 = crate::effects::all_written(d, writes);
                &&& self.intact(d2)
                &&& self.contents(d2) == self.contents(d).insert(l.key, value)
            },
    {
        reveal(Table::intact);
        crate::ops::lemma_standing(self, d, l.walk);
        let writes = self.replacement(l, value, d.dat.len() as u64)->Ok_0;
        crate::ops::lemma_replaced(self, d, l, value, crate::effects::all_written(d, writes));
        assert(self.contents(d).insert(l.key, value).dom() =~= self.contents(d).dom());
    }

    /// Removing a key from intact files.
    pub proof fn lemma_removing(self, d: Disk, key: Seq<u8>)
        requires
            self.intact(d),
            key.len() == self.header.key_size,
        ensures
            ({
                let (outcome, t2, d2) = self.removing(d, key);
                &&& t2.intact(d2)
                &&& t2.contents(d2) == self.contents(d).remove(key)
                &&& outcome == Ok::<bool, Error>(self.contents(d).contains_key(key))
                &&& !self.contents(d).contains_key(key) ==> t2 == self && d2 == d
            }),
    {
        reveal(Table::intact);
        self.lemma_sought(d, key, false);
        let l = self.sought(d, key, false)->Ok_0;
        if self.contents(d).contains_key(key) {
            crate::ops::lemma_standing(self, d, l.walk);
            let (_, t2, d2) = self.removing(d, key);
            crate::ops::lemma_removed(self, d, l, t2, d2);
            assert(self.contents(d).remove(key).dom() =~= self.contents(d).dom().remove(key));
            assert(self.contents(d).dom().contains(key));
        } else {
            assert(self.contents(d).remove(key) =~= self.contents(d));
        }
    }

    /// The files of a new store are intact, and store nothing.
    pub proof fn lemma_fresh(options: crate::table::StoreOptions, uid: u64, salt: u64)
        requires
            options.block_size >= crate::format::KEY_HEADER_SIZE,
        ensures
            ({
                let t = Table::fresh(options, uid, salt);
                let d = Disk { dat: t.new_dat(), key: t.new_key() };
                &&& t.intact(d)
                &&& t.contents(d) == Map::<Seq<u8>, Seq<u8>>::empty()
            }),
    {
        broadcast use crate::codec::lemma_be_bytes_len;

        reveal(Table::intact);
        let t = Table::fresh(options, uid, salt);
        let d = Disk { dat: t.new_dat(), key: t.new_key() };
        let bs = t.bs();
        let zeros = crate::format::zeros(bs as nat);
        vstd::arithmetic::power2::lemma2_to64();
        crate::effects::lemma_header_block_len(t.header);
        assert(d.key.subrange(0, bs) =~= t.header.block());
        assert(t.block_of(d, 0) =~= zeros);
        assert(crate::format::field(zeros, 0, 2) == 0 && crate::format::field(zeros, 2, 6) == 0) by {
            reveal_with_fuel(crate::codec::be_value, 7);
        }
        let home = t.home(d, 0)->Some_0;
        assert(home.entries =~= Seq::empty());
        assert(t.entries(d, 0) =~= Seq::empty());
        assert(t.bucket_ok(d, 0));
        assert(t.pages(d, 0) =~= Seq::empty());
        assert(t.contents(d) =~= Map::empty());
    }

    /// Storing a key leaves the data file within its limit.
    pub proof fn lemma_insertion_len(self, d: Disk, lookup: LookupView, value: Seq<u8>)
        requires
            d.dat.len() <= u64::MAX,
            lookup.walk.home.fits(self.bs()),
        ensures
            self.insertion(lookup, value, d.dat.len() as u64) matches Ok(writes)
                ==> crate::effects::all_written(d, writes).dat.len() <= MAX_DAT_SIZE,
    {
        broadcast use crate::codec::lemma_be_bytes_len;

        if let Ok(writes) = self.insertion(lookup, value, d.dat.len() as u64) {
            crate::effects::lemma_two_written(d, writes);
            crate::bucket::law_bucket_read_back(lookup.walk.home, self.bs());
        }
    }
}

} // verus!

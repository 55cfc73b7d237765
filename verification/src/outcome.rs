//! What storing a key and splitting a bucket do to the files, byte for byte,
//! and when they cannot be done.

use crate::error::Error;
use crate::format::{MAX_DAT_SIZE, VERSION};
use crate::lookup::LookupView;
use crate::model::Disk;
use crate::split::SplitView;
use crate::table::Table;
use crate::walk::{Stage, WalkView};
use vstd::prelude::*;

verus! {

impl Table {
    /// The files are well formed, of this version, and as many keys are stored
    /// as the header counts.
    #[verifier::opaque]
    pub open spec fn intact(self, d: Disk) -> bool {
        &&& self.well_formed(d)
        &&& self.header.version == VERSION
        &&& self.contents(d).dom().finite()
        &&& self.contents(d).len() == self.header.key_count
    }

    /// A lookup that has not found the key in its bucket.
    pub open spec fn exhausted(self, d: Disk, key: Seq<u8>) -> LookupView {
        let started = self.looking(key, self.hash(key), true);
        LookupView {
            walk: WalkView {
                home: self.home(d, started.walk.index as int)->Some_0,
                stage: Stage::End,
                ..started.walk
            },
            ..started
        }
    }

    /// What is written to store a key that is not stored.
    pub open spec fn storing(self, d: Disk, key: Seq<u8>, value: Seq<u8>) -> Result<
        Seq<crate::write::WriteView>,
        Error,
    > {
        self.insertion(self.exhausted(d, key), value, d.dat.len() as u64)
    }

    /// The table and the files after a key that was not stored has been stored
    /// and counted, before a bucket is split.
    pub open spec fn stored(self, d: Disk, key: Seq<u8>, value: Seq<u8>) -> (Table, Disk) {
        let t2 = self.counting((self.header.key_count + 1) as u64);
        let d2 = crate::effects::written(
            crate::effects::all_written(d, self.storing(d, key, value)->Ok_0),
            t2.header_block(),
        );
        (t2, d2)
    }

    /// The entries of the next bucket to be split, parted.
    pub open spec fn split_of(self, d: Disk) -> SplitView {
        let s = self.entries(d, self.next as int);
        SplitView {
            keep: s.filter(crate::ops::staying(self, d)),
            moved: s.filter(crate::ops::leaving(self, d)),
            ..self.splitting()
        }
    }

    /// Why the next bucket cannot be split though the load is over the load
    /// factor.
    pub open spec fn split_error(self, d: Disk) -> Option<Error> {
        if !self.overloaded() {
            None
        } else if !self.can_grow() {
            Some(Error::KeyFileFull)
        } else if !crate::write::room_for(
            self.header,
            d.dat.len() as int,
            self.split_spills(self.split_of(d)),
        ) {
            Some(Error::DataFileFull)
        } else {
            None
        }
    }

    /// The table and the files after the next bucket has been split, if the
    /// load is over the load factor and the bucket can be split.
    pub open spec fn after_split(self, d: Disk) -> (Table, Disk) {
        if self.overloaded() && self.split_error(d) is None {
            (
                self.grown(),
                crate::effects::written(
                    crate::effects::all_written(
                        d,
                        self.splitted(self.split_of(d), d.dat.len() as u64)->Ok_0,
                    ),
                    self.grown().header_block(),
                ),
            )
        } else {
            (self, d)
        }
    }

    /// There are no more keys than offsets in the data file.
    pub proof fn lemma_key_count_bound(self, d: Disk)
        requires
            self.intact(d),
        ensures
            self.header.key_count <= MAX_DAT_SIZE,
    {
        reveal(Table::intact);
        let keys = self.contents(d).dom();
        let offset = |key: Seq<u8>|
            (choose|e: crate::bucket::BucketEntry| #[trigger] self.leads(d, e, key)).offset as int;
        assert(vstd::relations::injective_on(offset, keys)) by {
            assert forall|a: Seq<u8>, b: Seq<u8>|
                keys.contains(a) && keys.contains(b) && #[trigger] offset(a) == #[trigger] offset(
                    b,
                ) implies a == b by {
                let e = choose|e: crate::bucket::BucketEntry| #[trigger] self.leads(d, e, a);
                let f = choose|f: crate::bucket::BucketEntry| #[trigger] self.leads(d, f, b);
                assert(self.leads(d, e, a) && self.leads(d, f, b));
            }
        }
        let offsets = keys.map(offset);
        vstd::set_lib::lemma_map_size(keys, offsets, offset);
        let range = vstd::set_lib::set_int_range(0, MAX_DAT_SIZE as int);
        vstd::set_lib::lemma_int_range(0, MAX_DAT_SIZE as int);
        assert forall|x: int| offsets.contains(x) implies range.contains(x) by {
            let key = choose|key: Seq<u8>| keys.contains(key) && offset(key) == x;
            let e = choose|e: crate::bucket::BucketEntry| #[trigger] self.leads(d, e, key);
            assert(self.leads(d, e, key));
            crate::evolve::lemma_listed_spared(self, d, d, 0, 0, e);
        }
        vstd::set_lib::lemma_len_subset(offsets, range);
    }

    /// A stored key: what it takes, and what it leaves.
    pub proof fn lemma_stored(self, d: Disk, l: LookupView, value: Seq<u8>)
        requires
            self.intact(d),
            crate::ops::standing(self, d, l.walk),
            crate::ops::seeking(self, l),
            !self.contents(d).contains_key(l.key),
        ensures
            self.insertion(l, value, d.dat.len() as u64) == self.storing(d, l.key, value),
            self.storing(d, l.key, value) is Ok ==> ({
                let (t2, d2) = self.stored(d, l.key, value);
                &&& t2.intact(d2)
                &&& t2.contents(d2) == self.contents(d).insert(l.key, value)
            }),
    {
        reveal(Table::intact);
        self.lemma_key_count_bound(d);
        let e = self.exhausted(d, l.key);
        assert(e.walk.home == l.walk.home);
        assert(e.walk.index == l.walk.index);
        assert(e.walk.filter == l.walk.filter);
        assert(self.insertion(l, value, d.dat.len() as u64) == self.storing(d, l.key, value));
        if self.storing(d, l.key, value) is Ok {
            let (t2, d2) = self.stored(d, l.key, value);
            crate::ops::lemma_inserted(self, d, l, value, t2, d2);
        }
    }

    /// A split bucket: what it takes, and that it leaves what is stored.
    pub proof fn lemma_after_split(self, d: Disk, sp: SplitView)
        requires
            self.intact(d),
            self.overloaded(),
            crate::ops::parted(self, d, sp),
        ensures
            self.splitted(sp, d.dat.len() as u64) == self.splitted(
                self.split_of(d),
                d.dat.len() as u64,
            ),
            self.splitted(sp, d.dat.len() as u64) is Ok <==> self.split_error(d) is None,
            self.splitted(sp, d.dat.len() as u64) matches Err(error) ==> self.split_error(d)
                == Some(error),
            self.split_error(d) is None ==> ({
                let (t2, d2) = self.after_split(d);
                &&& t2.intact(d2)
                &&& t2.contents(d2) == self.contents(d)
            }),
    {
        reveal(Table::intact);
        let (t2, d2) = self.after_split(d);
        if self.split_error(d) is None {
            crate::ops::lemma_split_done(self, d, sp, d2);
        }
    }
}

} // verus!

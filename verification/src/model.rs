//! What a pair of files stores.
//!
//! A bucket lists the entries of its block and of the spill records that
//! continue it. An entry leads to a data record, and a record pairs a key with
//! a value. Files are well formed when every entry leads to a record of a key
//! that falls in the entry's bucket, no bucket lists a key twice, and no spill
//! record shares bytes with another one or with a listed record.

use crate::bucket::{BucketEntry, BucketView};
use crate::format::{DAT_HEADER_SIZE, MAX_DAT_SIZE, SPILL_HEADER_SIZE};
use crate::table::Table;
use vstd::prelude::*;

verus! {

/// The bytes of the two files.
#[verifier::ext_equal]
pub struct Disk {
    pub dat: Seq<u8>,
    pub key: Seq<u8>,
}

/// The bucket in the spill record at `at`, of blocks of `bs` bytes.
pub open spec fn spill_page(dat: Seq<u8>, bs: int, at: int) -> Option<BucketView> {
    if DAT_HEADER_SIZE <= at && at + SPILL_HEADER_SIZE + bs <= dat.len() && crate::format::field(
        dat,
        at + 6,
        2,
    ) == bs {
        BucketView::decoding(dat.subrange(at + SPILL_HEADER_SIZE, at + SPILL_HEADER_SIZE + bs))
    } else {
        None
    }
}

/// Spill records lead from `spill` to the end of a chain, each before the last.
pub open spec fn linked(dat: Seq<u8>, bs: int, spill: u64) -> bool
    decreases spill,
{
    spill == 0 || match spill_page(dat, bs, spill as int) {
        Some(bucket) => {
            &&& bucket.spill < spill
            &&& bucket.spill == 0 || bucket.spill + SPILL_HEADER_SIZE + bs <= spill
            &&& linked(dat, bs, bucket.spill)
        },
        None => false,
    }
}

/// The entries of the spill records from `spill` on.
pub open spec fn chained(dat: Seq<u8>, bs: int, spill: u64) -> Seq<BucketEntry>
    decreases spill,
{
    if spill == 0 {
        Seq::empty()
    } else {
        match spill_page(dat, bs, spill as int) {
            Some(bucket) => if bucket.spill < spill {
                bucket.entries + chained(dat, bs, bucket.spill)
            } else {
                bucket.entries
            },
            None => Seq::empty(),
        }
    }
}

/// The offsets of the spill records from `spill` on.
pub open spec fn pages(dat: Seq<u8>, bs: int, spill: u64) -> Seq<u64>
    decreases spill,
{
    if spill == 0 {
        Seq::empty()
    } else {
        match spill_page(dat, bs, spill as int) {
            Some(bucket) => if bucket.spill < spill {
                seq![spill] + pages(dat, bs, bucket.spill)
            } else {
                seq![spill]
            },
            None => Seq::empty(),
        }
    }
}

/// The first bytes that a data record's size field states past that field.
pub open spec fn record_total(dat: Seq<u8>, at: int) -> int {
    crate::format::field(dat, at, 6) as int
}

/// Where a data record ends.
pub open spec fn record_end(dat: Seq<u8>, at: int) -> int {
    at + 6 + record_total(dat, at)
}

/// The key of a data record.
pub open spec fn record_key(dat: Seq<u8>, ks: int, at: int) -> Seq<u8> {
    dat.subrange(at + 6, at + 6 + ks)
}

/// The value of a data record.
pub open spec fn record_value(dat: Seq<u8>, ks: int, at: int) -> Seq<u8> {
    dat.subrange(at + 6 + ks, record_end(dat, at))
}

/// There is a data record at `at`.
pub open spec fn record_ok(dat: Seq<u8>, ks: int, at: int) -> bool {
    &&& DAT_HEADER_SIZE <= at
    &&& at + 6 <= dat.len()
    &&& ks <= record_total(dat, at)
    &&& record_end(dat, at) <= dat.len()
}

/// No two entries lead to the same key.
pub open spec fn distinct(dat: Seq<u8>, ks: int, entries: Seq<BucketEntry>) -> bool {
    forall|a: int, b: int|
        0 <= a < b < entries.len() ==> record_key(dat, ks, (#[trigger] entries[a]).offset as int)
            != record_key(dat, ks, (#[trigger] entries[b]).offset as int)
}

impl Table {
    pub open spec fn bs(self) -> int {
        self.header.block_size as int
    }

    pub open spec fn ks(self) -> int {
        self.header.key_size as int
    }

    /// The hash of a key in this table.
    pub open spec fn hash(self, key: Seq<u8>) -> u64 {
        crate::hash::xxh64_value(key, self.header.salt)
    }

    /// The block of a bucket.
    pub open spec fn block_of(self, d: Disk, i: int) -> Seq<u8> {
        d.key.subrange((i + 1) * self.header.block_size, (i + 2) * self.header.block_size)
    }

    /// The bucket in the block of a bucket.
    pub open spec fn home(self, d: Disk, i: int) -> Option<BucketView> {
        BucketView::decoding(self.block_of(d, i))
    }

    /// The entries that a bucket lists.
    pub open spec fn entries(self, d: Disk, i: int) -> Seq<BucketEntry> {
        match self.home(d, i) {
            Some(home) => home.entries + chained(d.dat, self.bs(), home.spill),
            None => Seq::empty(),
        }
    }

    /// The spill records that continue a bucket.
    pub open spec fn pages(self, d: Disk, i: int) -> Seq<u64> {
        match self.home(d, i) {
            Some(home) => pages(d.dat, self.bs(), home.spill),
            None => Seq::empty(),
        }
    }

    /// The key that an entry leads to.
    pub open spec fn key_of(self, d: Disk, entry: BucketEntry) -> Seq<u8> {
        record_key(d.dat, self.ks(), entry.offset as int)
    }

    /// The value that an entry leads to.
    pub open spec fn value_of(self, d: Disk, entry: BucketEntry) -> Seq<u8> {
        record_value(d.dat, self.ks(), entry.offset as int)
    }

    /// An entry leads to a record, says of it what is true, and stands in the
    /// bucket of the record's key.
    pub open spec fn entry_ok(self, d: Disk, i: int, entry: BucketEntry) -> bool {
        &&& record_ok(d.dat, self.ks(), entry.offset as int)
        &&& entry.size == record_total(d.dat, entry.offset as int) - self.ks()
        &&& entry.hash == crate::hash::upper48(self.hash(self.key_of(d, entry)))
        &&& self.index(self.hash(self.key_of(d, entry))) == i
    }

    /// A bucket can be read to its end, each of its entries is right, and it
    /// lists no key twice.
    pub open spec fn bucket_ok(self, d: Disk, i: int) -> bool {
        &&& self.home(d, i) is Some
        &&& linked(d.dat, self.bs(), self.home(d, i)->Some_0.spill)
        &&& forall|e: BucketEntry|
            #[trigger] self.entries(d, i).contains(e) ==> self.entry_ok(d, i, e)
        &&& distinct(d.dat, self.ks(), self.entries(d, i))
    }

    /// Two spill records share no byte.
    pub open spec fn apart(self, p: u64, q: u64) -> bool {
        p + SPILL_HEADER_SIZE + self.bs() <= q || q + SPILL_HEADER_SIZE + self.bs() <= p
    }

    /// A spill record shares no byte with an entry's record.
    pub open spec fn clear(self, d: Disk, p: u64, e: BucketEntry) -> bool {
        p + SPILL_HEADER_SIZE + self.bs() <= e.offset || record_end(d.dat, e.offset as int) <= p
    }

    /// The files are well formed.
    pub open spec fn well_formed(self, d: Disk) -> bool {
        &&& self.regular()
        &&& d.key.len() == (self.header.bucket_count + 1) * self.header.block_size
        &&& d.key.subrange(0, self.bs()) == self.header.block()
        &&& DAT_HEADER_SIZE <= d.dat.len() <= MAX_DAT_SIZE
        &&& forall|i: int| 0 <= i < self.header.bucket_count ==> #[trigger] self.bucket_ok(d, i)
        &&& forall|i: int, j: int, p: u64, q: u64|
            0 <= i < self.header.bucket_count && 0 <= j < self.header.bucket_count && i != j
                && #[trigger] self.pages(d, i).contains(p) && #[trigger] self.pages(d, j).contains(
                q,
            ) ==> self.apart(p, q)
        &&& forall|i: int, j: int, p: u64, e: BucketEntry|
            0 <= i < self.header.bucket_count && 0 <= j < self.header.bucket_count
                && #[trigger] self.pages(d, i).contains(p) && #[trigger] self.entries(
                d,
                j,
            ).contains(e) ==> self.clear(d, p, e)
    }

    /// Some bucket lists the entry.
    pub open spec fn listed(self, d: Disk, e: BucketEntry) -> bool {
        exists|i: int|
            0 <= i < self.header.bucket_count && #[trigger] self.entries(d, i).contains(e)
    }

    /// A listed entry that leads to the key.
    pub open spec fn leads(self, d: Disk, e: BucketEntry, key: Seq<u8>) -> bool {
        self.listed(d, e) && self.key_of(d, e) == key
    }

    /// The keys and values that the files store.
    pub open spec fn contents(self, d: Disk) -> Map<Seq<u8>, Seq<u8>> {
        Map::new(
            |key: Seq<u8>| exists|e: BucketEntry| #[trigger] self.leads(d, e, key),
            |key: Seq<u8>|
                self.value_of(d, choose|e: BucketEntry| #[trigger] self.leads(d, e, key)),
        )
    }

    /// Two listed entries that lead to one key are one entry.
    pub proof fn lemma_one_entry(self, d: Disk, e: BucketEntry, f: BucketEntry)
        requires
            self.well_formed(d),
            self.listed(d, e),
            self.listed(d, f),
            self.key_of(d, e) == self.key_of(d, f),
        ensures
            e == f,
    {
        let i = choose|i: int|
            0 <= i < self.header.bucket_count && #[trigger] self.entries(d, i).contains(e);
        let j = choose|j: int|
            0 <= j < self.header.bucket_count && #[trigger] self.entries(d, j).contains(f);
        assert(self.bucket_ok(d, i) && self.bucket_ok(d, j));
        assert(self.entry_ok(d, i, e) && self.entry_ok(d, j, f));
        assert(i == j);
        let s = self.entries(d, i);
        let a = choose|a: int| 0 <= a < s.len() && s[a] == e;
        let b = choose|b: int| 0 <= b < s.len() && s[b] == f;
        if a < b {
            assert(record_key(d.dat, self.ks(), s[a].offset as int) != record_key(
                d.dat,
                self.ks(),
                s[b].offset as int,
            ));
        } else if b < a {
            assert(record_key(d.dat, self.ks(), s[b].offset as int) != record_key(
                d.dat,
                self.ks(),
                s[a].offset as int,
            ));
        }
    }

    /// What a listed entry leads to is stored.
    pub proof fn lemma_listed_stored(self, d: Disk, e: BucketEntry)
        requires
            self.well_formed(d),
            self.listed(d, e),
        ensures
            self.contents(d).contains_key(self.key_of(d, e)),
            self.contents(d)[self.key_of(d, e)] == self.value_of(d, e),
    {
        let key = self.key_of(d, e);
        assert(self.leads(d, e, key));
        let f = choose|f: BucketEntry| #[trigger] self.leads(d, f, key);
        self.lemma_one_entry(d, e, f);
    }

    /// What is stored, an entry of the bucket of its key leads to.
    pub proof fn lemma_stored_listed(self, d: Disk, key: Seq<u8>) -> (e: BucketEntry)
        requires
            self.well_formed(d),
            self.contents(d).contains_key(key),
        ensures
            self.listed(d, e),
            self.key_of(d, e) == key,
            self.value_of(d, e) == self.contents(d)[key],
            self.entries(d, self.index(self.hash(key))).contains(e),
            key.len() == self.ks(),
    {
        let e = choose|e: BucketEntry| #[trigger] self.leads(d, e, key);
        self.lemma_listed_stored(d, e);
        let i = choose|i: int|
            0 <= i < self.header.bucket_count && #[trigger] self.entries(d, i).contains(e);
        assert(self.bucket_ok(d, i));
        assert(self.entry_ok(d, i, e));
        e
    }
}

/// A spill record is read the same where its bytes are the same.
pub proof fn lemma_page_same(dat: Seq<u8>, dat2: Seq<u8>, bs: int, at: int)
    requires
        bs >= 0,
        at >= 0,
        at + SPILL_HEADER_SIZE + bs <= dat.len() <= dat2.len(),
        forall|x: int| at <= x < at + SPILL_HEADER_SIZE + bs ==> dat[x] == dat2[x],
    ensures
        spill_page(dat, bs, at) == spill_page(dat2, bs, at),
{
    assert(dat.subrange(at + 6, at + 8) =~= dat2.subrange(at + 6, at + 8));
    assert(dat.subrange(at + 8, at + 8 + bs) =~= dat2.subrange(at + 8, at + 8 + bs));
}

/// The spill records of a chain lie in the file, and all but the first end
/// before the first starts.
pub proof fn lemma_pages(dat: Seq<u8>, bs: int, spill: u64)
    requires
        bs >= 0,
        linked(dat, bs, spill),
    ensures
        forall|p: u64| #[trigger]
            pages(dat, bs, spill).contains(p) ==> {
                &&& DAT_HEADER_SIZE <= p <= spill
                &&& p + SPILL_HEADER_SIZE + bs <= dat.len()
                &&& spill_page(dat, bs, p as int) is Some
                &&& p != spill ==> p + SPILL_HEADER_SIZE + bs <= spill
            },
        spill > 0 ==> pages(dat, bs, spill).contains(spill),
    decreases spill,
{
    if spill > 0 {
        let bucket = spill_page(dat, bs, spill as int)->Some_0;
        lemma_pages(dat, bs, bucket.spill);
        let rest = pages(dat, bs, bucket.spill);
        let all = pages(dat, bs, spill);
        assert(all[0] == spill);
        assert forall|p: u64| #[trigger] all.contains(p) implies {
            &&& DAT_HEADER_SIZE <= p <= spill
            &&& p + SPILL_HEADER_SIZE + bs <= dat.len()
            &&& spill_page(dat, bs, p as int) is Some
            &&& p != spill ==> p + SPILL_HEADER_SIZE + bs <= spill
        } by {
            let k = choose|k: int| 0 <= k < all.len() && all[k] == p;
            if k > 0 {
                assert(rest[k - 1] == p);
                assert(rest.contains(p));
                assert(bucket.spill > 0);
            }
        }
    }
}

/// A chain is read the same where the bytes of its spill records are the same.
pub proof fn lemma_chain_same(dat: Seq<u8>, dat2: Seq<u8>, bs: int, spill: u64)
    requires
        bs >= 0,
        linked(dat, bs, spill),
        dat.len() <= dat2.len(),
        forall|p: u64, x: int|
            #![trigger pages(dat, bs, spill).contains(p), dat2[x]]
            pages(dat, bs, spill).contains(p) && p <= x < p + SPILL_HEADER_SIZE + bs ==> dat[x]
                == dat2[x],
    ensures
        linked(dat2, bs, spill),
        chained(dat2, bs, spill) == chained(dat, bs, spill),
        pages(dat2, bs, spill) == pages(dat, bs, spill),
    decreases spill,
{
    if spill > 0 {
        lemma_pages(dat, bs, spill);
        assert(pages(dat, bs, spill).contains(spill));
        lemma_page_same(dat, dat2, bs, spill as int);
        let bucket = spill_page(dat, bs, spill as int)->Some_0;
        let rest = pages(dat, bs, bucket.spill);
        let all = pages(dat, bs, spill);
        assert forall|p: u64, x: int|
            #![trigger rest.contains(p), dat2[x]]
            rest.contains(p) && p <= x < p + SPILL_HEADER_SIZE + bs implies dat[x] == dat2[x] by {
            let k = choose|k: int| 0 <= k < rest.len() && rest[k] == p;
            assert(all[k + 1] == p);
            assert(all.contains(p));
        }
        lemma_chain_same(dat, dat2, bs, bucket.spill);
    }
}

/// A data record is read the same where its bytes are the same.
pub proof fn lemma_record_same(dat: Seq<u8>, dat2: Seq<u8>, ks: int, at: int)
    requires
        ks >= 0,
        record_ok(dat, ks, at),
        dat.len() <= dat2.len(),
        forall|x: int| at <= x < record_end(dat, at) ==> dat[x] == #[trigger] dat2[x],
    ensures
        record_ok(dat2, ks, at),
        record_total(dat2, at) == record_total(dat, at),
        record_key(dat2, ks, at) == record_key(dat, ks, at),
        record_value(dat2, ks, at) == record_value(dat, ks, at),
{
    assert(dat.subrange(at, at + 6) =~= dat2.subrange(at, at + 6));
    assert(record_key(dat2, ks, at) =~= record_key(dat, ks, at));
    assert(record_value(dat2, ks, at) =~= record_value(dat, ks, at));
}

} // verus!

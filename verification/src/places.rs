//! Where a store puts what it is given, in plain numbers.

use crate::bucket::{BucketEntry, BucketView};
use crate::error::Error;
use crate::model::Disk;
use crate::table::Table;
use vstd::prelude::*;

verus! {

/// A number inside a part of some bytes is read the same in the part.
pub proof fn lemma_number_within(bytes: Seq<u8>, from: int, to: int, at: int, width: int)
    requires
        0 <= from <= to <= bytes.len(),
        0 <= at,
        0 <= width,
        from + at + width <= to,
    ensures
        crate::plain::number_at(bytes, from + at, width) == crate::plain::number_at(
            bytes.subrange(from, to),
            at,
            width,
        ),
{
    assert(bytes.subrange(from, to).subrange(at, at + width) =~= bytes.subrange(
        from + at,
        from + at + width,
    ));
}

/// The buckets are as many as the state of linear hashing makes.
pub proof fn law_buckets_counted(t: Table, d: Disk)
    requires
        t.intact(d),
    ensures
        vstd::arithmetic::power2::pow2(t.level as nat) + t.next == t.header.bucket_count,
        t.next < vstd::arithmetic::power2::pow2(t.level as nat),
{
    reveal(Table::intact);
}

/// A stored key has an entry in the bucket of its hash. The entry leads to a
/// record with the key and the value, and holds the value's size and the upper
/// bits of the hash, which is the key's with the salt for a seed.
pub proof fn law_stored_record(t: Table, d: Disk, key: Seq<u8>, value: Seq<u8>) -> (e: BucketEntry)
    requires
        t.intact(d),
        key.len() == t.header.key_size,
        t.fetching(d, key) == Ok::<Option<Seq<u8>>, Error>(Some(value)),
    ensures
        ({
            let hash = crate::hash::xxh64_value(key, t.header.salt);
            let at = e.offset as int;
            &&& t.entries(d, crate::linear::index_of(t.level, t.next, hash)).contains(e)
            &&& e.size == value.len()
            &&& e.hash * 0x1_0000 + hash % 0x1_0000 == hash
            &&& 92 <= at < 0x1_0000_0000_0000
            &&& at + 6 + key.len() + value.len() <= d.dat.len()
            &&& crate::plain::number_at(d.dat, at, 6) == key.len() + value.len()
            &&& d.dat.subrange(at + 6, at + 6 + key.len()) == key
            &&& d.dat.subrange(at + 6 + key.len(), at + 6 + key.len() + value.len()) == value
        }),
{
    assert(t.well_formed(d)) by {
        reveal(Table::intact);
    }
    t.lemma_sought(d, key, true);
    let e = t.lemma_stored_listed(d, key);
    let i = t.index(t.hash(key));
    t.lemma_level_bound();
    crate::linear::law_index_in_range(t.level, t.next, t.header.bucket_count, t.hash(key));
    assert(t.bucket_ok(d, i));
    assert(t.entry_ok(d, i, e));
    crate::plain::law_digits_read(d.dat.subrange(e.offset as int, e.offset + 6));
    lemma_listed_fits(t, d, i, e);
    e
}

/// A listed entry's fields fit in 48 bits.
pub proof fn lemma_listed_fits(t: Table, d: Disk, i: int, e: BucketEntry)
    requires
        t.well_formed(d),
        0 <= i < t.header.bucket_count,
        t.entries(d, i).contains(e),
    ensures
        e.fits(),
{
    assert(t.bucket_ok(d, i));
    t.lemma_block_offset(i);
    let home = t.home(d, i)->Some_0;
    crate::bucket::lemma_decoded_bucket_fits(t.block_of(d, i));
    let s = t.entries(d, i);
    let k = choose|k: int| 0 <= k < s.len() && s[k] == e;
    if k < home.entries.len() {
        assert(home.entries[k] == e);
    } else {
        let rest = crate::model::chained(d.dat, t.bs(), home.spill);
        assert(rest[k - home.entries.len()] == e);
        lemma_chained_fits(d.dat, t.bs(), home.spill, k - home.entries.len());
    }
}

proof fn lemma_chained_fits(dat: Seq<u8>, bs: int, spill: u64, k: int)
    requires
        0 <= bs <= 0xffff,
        crate::model::linked(dat, bs, spill),
        0 <= k < crate::model::chained(dat, bs, spill).len(),
    ensures
        crate::model::chained(dat, bs, spill)[k].fits(),
    decreases spill,
{
    if spill > 0 {
        let bucket = crate::model::spill_page(dat, bs, spill as int)->Some_0;
        crate::bucket::lemma_decoded_bucket_fits(dat.subrange(spill + 8, spill + 8 + bs));
        if k >= bucket.entries.len() {
            lemma_chained_fits(dat, bs, bucket.spill, k - bucket.entries.len());
        }
    }
}

/// Inserting appends the record of the key and the value to the data file,
/// where the file ended.
pub proof fn law_record_appended(t: Table, d: Disk, key: Seq<u8>, value: Seq<u8>)
    requires
        t.intact(d),
        key.len() == t.header.key_size,
        t.inserting(d, key, value).0 == Ok::<bool, Error>(true),
    ensures
        ({
            let dat = t.inserting(d, key, value).2.dat;
            let at = d.dat.len() as int;
            &&& at < 0x1_0000_0000_0000
            &&& at + 6 + key.len() + value.len() <= dat.len()
            &&& dat.subrange(0, at) == d.dat
            &&& crate::plain::number_at(dat, at, 6) == key.len() + value.len()
            &&& dat.subrange(at + 6, at + 6 + key.len()) == key
            &&& dat.subrange(at + 6 + key.len(), at + 6 + key.len() + value.len()) == value
        }),
{
    broadcast use crate::codec::lemma_be_bytes_len;

    let dat = t.inserting(d, key, value).2.dat;
    let at = d.dat.len() as int;
    let record = crate::write::data_record(key, value);
    lemma_record_first(t, d, key, value);
    crate::plain::law_record_bytes(key, value);
    let base = d.dat + record;
    assert forall|x: int| 0 <= x < base.len() implies dat[x] == base[x] by {}
    assert(dat.subrange(0, at) =~= d.dat);
    assert(dat.subrange(at, at + record.len()) =~= record);
    lemma_number_within(dat, at, at + record.len(), 0, 6);
    assert(dat.subrange(at + 6, at + 6 + key.len()) =~= record.subrange(
        6,
        (6 + key.len()) as int,
    ));
    assert(dat.subrange(at + 6 + key.len(), at + 6 + key.len() + value.len()) =~= record.subrange(
        (6 + key.len()) as int,
        record.len() as int,
    ));
}

proof fn lemma_record_first(t: Table, d: Disk, key: Seq<u8>, value: Seq<u8>)
    requires
        t.intact(d),
        key.len() == t.header.key_size,
        t.inserting(d, key, value).0 == Ok::<bool, Error>(true),
    ensures
        d.dat.len() < 0x1_0000_0000_0000,
        key.len() + value.len() < 0x1_0000_0000_0000,
        (d.dat + crate::write::data_record(key, value)).is_prefix_of(
            t.inserting(d, key, value).2.dat,
        ),
{
    t.lemma_inserting(d, key, value);
    let (t1, d1) = t.stored(d, key, value);
    lemma_stored_prefix(t, d, key, value);
    lemma_split_appends(t1, d1);
}

proof fn lemma_stored_prefix(t: Table, d: Disk, key: Seq<u8>, value: Seq<u8>)
    requires
        t.intact(d),
        key.len() == t.header.key_size,
        !t.contents(d).contains_key(key),
        t.storing(d, key, value) is Ok,
    ensures
        d.dat.len() < 0x1_0000_0000_0000,
        key.len() + value.len() < 0x1_0000_0000_0000,
        (d.dat + crate::write::data_record(key, value)).is_prefix_of(
            t.stored(d, key, value).1.dat,
        ),
        t.stored(d, key, value).1.dat.len() <= u64::MAX,
{
    assert(t.well_formed(d)) by {
        reveal(Table::intact);
    }
    t.lemma_sought(d, key, true);
    t.lemma_stored(d, t.sought(d, key, true)->Ok_0, value);
    let (t1, d1) = t.stored(d, key, value);
    assert(d1.dat.len() <= u64::MAX) by {
        reveal(Table::intact);
    }
    lemma_storing_prefix(t, d, t.exhausted(d, key), value);
}

proof fn lemma_storing_prefix(t: Table, d: Disk, l: crate::lookup::LookupView, value: Seq<u8>)
    requires
        d.dat.len() <= u64::MAX,
        t.insertion(l, value, d.dat.len() as u64) is Ok,
    ensures
        d.dat.len() < 0x1_0000_0000_0000,
        l.key.len() + value.len() < 0x1_0000_0000_0000,
        (d.dat + crate::write::data_record(l.key, value)).is_prefix_of(
            crate::effects::all_written(
                d,
                t.insertion(l, value, d.dat.len() as u64)->Ok_0,
            ).dat,
        ),
{
    broadcast use crate::codec::lemma_be_bytes_len;

    let writes = t.insertion(l, value, d.dat.len() as u64)->Ok_0;
    crate::effects::lemma_two_written(d, writes);
}

proof fn lemma_split_appends(t: Table, d: Disk)
    requires
        d.dat.len() <= u64::MAX,
    ensures
        d.dat.is_prefix_of(t.after_split(d).1.dat),
{
    if t.overloaded() && t.split_error(d) is None {
        let writes = t.splitted(t.split_of(d), d.dat.len() as u64)->Ok_0;
        crate::effects::lemma_three_written(d, writes);
    }
}

/// Where the bucket of a key that is not stored has a place left, and the load
/// stays within the load factor, an insert adds one record to the data file and
/// one entry to that bucket's block, and changes nothing else but the header.
pub proof fn law_insert_in_place(t: Table, d: Disk, key: Seq<u8>, value: Seq<u8>) -> (place: int)
    requires
        t.intact(d),
        key.len() == t.header.key_size,
        t.fetching(d, key) == Ok::<Option<Seq<u8>>, Error>(None),
        ({
            let hash = crate::hash::xxh64_value(key, t.header.salt);
            let i = crate::linear::index_of(t.level, t.next, hash);
            crate::plain::number_at(d.key, (i + 1) * t.header.block_size, 2) < (t.header.block_size
                - 8) / 18
        }),
        (t.header.key_count + 1) * 65536 / (t.header.bucket_count * ((t.header.block_size - 8)
            / 18)) <= t.header.load_factor,
        d.dat.len() < 0x1_0000_0000_0000,
        key.len() + value.len() < 0x1_0000_0000_0000,
    ensures
        ({
            let hash = crate::hash::xxh64_value(key, t.header.salt);
            let i = crate::linear::index_of(t.level, t.next, hash);
            let base = (i + 1) * t.header.block_size;
            let count = crate::plain::number_at(d.key, base, 2);
            let (outcome, t2, d2) = t.inserting(d, key, value);
            &&& outcome == Ok::<bool, Error>(true)
            &&& d2.dat.len() == d.dat.len() + 6 + key.len() + value.len()
            &&& d2.key.len() == d.key.len()
            &&& crate::plain::number_at(d2.key, base, 2) == count + 1
            &&& crate::plain::number_at(d2.key, base + 2, 6) == crate::plain::number_at(
                d.key,
                base + 2,
                6,
            )
            &&& 0 <= place <= count
            &&& crate::plain::number_at(d2.key, base + 8 + 18 * place, 6) == d.dat.len()
            &&& crate::plain::number_at(d2.key, base + 14 + 18 * place, 6) == value.len()
            &&& crate::plain::number_at(d2.key, base + 20 + 18 * place, 6) == (hash / 0x1_0000)
            &&& forall|j: int|
                0 <= j < t.header.bucket_count && j != i ==> #[trigger] crate::effects::block_at(
                    d2.key,
                    t.header.block_size as int,
                    j,
                ) == crate::effects::block_at(d.key, t.header.block_size as int, j)
        }),
{
    let hash = t.hash(key);
    let i = t.index(hash);
    let bs = t.bs();
    let base = (i + 1) * bs;
    let counted = t.counting((t.header.key_count + 1) as u64);
    assert(t.well_formed(d)) by {
        reveal(Table::intact);
    }
    t.lemma_key_count_bound(d);
    t.lemma_level_bound();
    crate::linear::law_index_in_range(t.level, t.next, t.header.bucket_count, hash);
    t.lemma_block_offset(i);
    crate::conduct::lemma_insert_outcome(t, d, key, value);
    crate::conduct::lemma_load(counted);
    assert(t.bucket_ok(d, i));
    let block = t.block_of(d, i);
    let home = t.home(d, i)->Some_0;
    crate::bucket::lemma_decoded_bucket_fits(block);
    crate::plain::law_bucket_read(block, 0);
    lemma_number_within(d.key, base, base + bs, 0, 2);
    lemma_number_within(d.key, base, base + bs, 2, 6);
    let l = t.exhausted(d, key);
    assert(l.walk.home == home);
    assert(home.entries.len() < t.header.capacity());
    lemma_placed_in_home(t, d, key, value)
}

/// What an insert into a bucket with a place left writes.
proof fn lemma_placed_in_home(t: Table, d: Disk, key: Seq<u8>, value: Seq<u8>) -> (place: int)
    requires
        t.intact(d),
        t.well_formed(d),
        key.len() == t.header.key_size,
        !t.contents(d).contains_key(key),
        0 <= t.index(t.hash(key)) < t.header.bucket_count,
        t.home(d, t.index(t.hash(key))) matches Some(home) && home.entries.len()
            < t.header.capacity() && home.fits(t.bs()),
        !t.counting((t.header.key_count + 1) as u64).overloaded(),
        d.dat.len() < 0x1_0000_0000_0000,
        key.len() + value.len() < 0x1_0000_0000_0000,
    ensures
        ({
            let i = t.index(t.hash(key));
            let home = t.home(d, i)->Some_0;
            let base = (i + 1) * t.header.block_size;
            let (outcome, t2, d2) = t.inserting(d, key, value);
            &&& outcome == Ok::<bool, Error>(true)
            &&& d2.dat.len() == d.dat.len() + 6 + key.len() + value.len()
            &&& d2.key.len() == d.key.len()
            &&& 0 <= place <= home.entries.len()
            &&& crate::plain::number_at(d2.key, base, 2) == home.entries.len() + 1
            &&& crate::plain::number_at(d2.key, base + 2, 6) == home.spill
            &&& crate::plain::number_at(d2.key, base + 8 + 18 * place, 6) == d.dat.len()
            &&& crate::plain::number_at(d2.key, base + 14 + 18 * place, 6) == value.len()
            &&& crate::plain::number_at(d2.key, base + 20 + 18 * place, 6) == t.hash(key) / 0x1_0000
            &&& forall|j: int|
                0 <= j < t.header.bucket_count && j != i ==> #[trigger] crate::effects::block_at(
                    d2.key,
                    t.bs(),
                    j,
                ) == crate::effects::block_at(d.key, t.bs(), j)
        }),
{
    let i = t.index(t.hash(key));
    let home = t.home(d, i)->Some_0;
    let e = t.entry_for(t.exhausted(d, key), value, d.dat.len() as u64);
    let after = home.with_entry(e);
    let place = crate::bucket::slot(home.entries, e.hash);
    let (t1, d1) = t.stored(d, key, value);
    crate::write::lemma_with_entry_fits(t.header, home, e);
    crate::bucket::lemma_slot_range(home.entries, e.hash);
    lemma_home_written(t, d, key, value);
    crate::ops::lemma_key_file(t, d, t1, i, after);
    lemma_home_numbers(t, d1.key, i, after, place);
    assert(after.entries[place] == e);
    assert(t.inserting(d, key, value).0 == Ok::<bool, Error>(true) && t.inserting(d, key, value).2
        == d1) by {
        t.lemma_inserting(d, key, value);
    }
    place
}

/// The numbers of a bucket in its block.
pub proof fn lemma_home_numbers(t: Table, key: Seq<u8>, i: int, bucket: BucketView, place: int)
    requires
        t.regular(),
        0 <= i < t.header.bucket_count,
        key.len() == (t.header.bucket_count + 1) * t.header.block_size,
        BucketView::decoding(crate::effects::block_at(key, t.bs(), i)) == Some(bucket),
        0 <= place < bucket.entries.len(),
    ensures
        ({
            let base = (i + 1) * t.header.block_size;
            &&& crate::plain::number_at(key, base, 2) == bucket.entries.len()
            &&& crate::plain::number_at(key, base + 2, 6) == bucket.spill
            &&& crate::plain::number_at(key, base + 8 + 18 * place, 6)
                == bucket.entries[place].offset
            &&& crate::plain::number_at(key, base + 14 + 18 * place, 6)
                == bucket.entries[place].size
            &&& crate::plain::number_at(key, base + 20 + 18 * place, 6)
                == bucket.entries[place].hash
        }),
{
    let bs = t.bs();
    let base = (i + 1) * bs;
    t.lemma_block_offset(i);
    let block = crate::effects::block_at(key, bs, i);
    assert(block.len() == bs);
    crate::plain::law_bucket_read(block, place);
    lemma_number_within(key, base, base + bs, 0, 2);
    lemma_number_within(key, base, base + bs, 2, 6);
    lemma_number_within(key, base, base + bs, 8 + 18 * place, 6);
    lemma_number_within(key, base, base + bs, 14 + 18 * place, 6);
    lemma_number_within(key, base, base + bs, 20 + 18 * place, 6);
}

/// The files after a key has been stored in a bucket with a place left.
proof fn lemma_home_written(t: Table, d: Disk, key: Seq<u8>, value: Seq<u8>)
    requires
        t.well_formed(d),
        0 <= t.index(t.hash(key)) < t.header.bucket_count,
        t.home(d, t.index(t.hash(key))) matches Some(home) && home.entries.len()
            < t.header.capacity() && home.fits(t.bs()),
        d.dat.len() < 0x1_0000_0000_0000,
        key.len() + value.len() < 0x1_0000_0000_0000,
    ensures
        t.storing(d, key, value) is Ok,
        ({
            let i = t.index(t.hash(key));
            let e = t.entry_for(t.exhausted(d, key), value, d.dat.len() as u64);
            let after = t.home(d, i)->Some_0.with_entry(e);
            let (t1, d1) = t.stored(d, key, value);
            &&& d1.dat.len() == d.dat.len() + 6 + key.len() + value.len()
            &&& d1.key == crate::effects::spliced(
                crate::effects::spliced(d.key, (i + 1) * t.bs(), after.encoding(t.bs())),
                0,
                t1.header.block(),
            )
            &&& e.offset == d.dat.len()
            &&& e.size == value.len()
            &&& e.hash == t.hash(key) / 0x1_0000
            &&& e.fits()
        }),
{
    broadcast use crate::codec::lemma_be_bytes_len;

    let i = t.index(t.hash(key));
    let l = t.exhausted(d, key);
    t.lemma_level_bound();
    t.lemma_block_offset(i);
    assert(l.walk.home == t.home(d, i)->Some_0 && l.walk.index == i);
    let writes = t.storing(d, key, value)->Ok_0;
    crate::effects::lemma_two_written(d, writes);
}

} // verus!

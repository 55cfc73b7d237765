//! What becomes of a bucket that has no place left, in plain numbers.

use crate::bucket::BucketView;
use crate::error::Error;
use crate::model::Disk;
use crate::table::Table;
use crate::walk::FileKind;
use vstd::prelude::*;

verus! {

/// Where the bucket of a key that is not stored has no place left, and the load
/// stays within the load factor, an insert adds the record and a spill record to
/// the data file. The spill record holds the bucket as it was; the bucket then
/// holds the new entry alone, and leads to the spill record.
pub proof fn law_insert_spills(t: Table, d: Disk, key: Seq<u8>, value: Seq<u8>, k: int)
    requires
        t.intact(d),
        key.len() == t.header.key_size,
        t.fetching(d, key) == Ok::<Option<Seq<u8>>, Error>(None),
        ({
            let hash = crate::hash::xxh64_value(key, t.header.salt);
            let i = crate::linear::index_of(t.level, t.next, hash);
            crate::plain::number_at(d.key, (i + 1) * t.header.block_size, 2) == (t.header.block_size
                - 8) / 18
        }),
        (t.header.key_count + 1) * 65536 / (t.header.bucket_count * ((t.header.block_size - 8)
            / 18)) <= t.header.load_factor,
        d.dat.len() + 6 + key.len() + value.len() < 0x1_0000_0000_0000,
        0 <= k < (t.header.block_size - 8) / 18,
    ensures
        ({
            let hash = crate::hash::xxh64_value(key, t.header.salt);
            let i = crate::linear::index_of(t.level, t.next, hash);
            let base = (i + 1) * t.header.block_size;
            let end = (d.dat.len() + 6 + key.len() + value.len()) as int;
            let (outcome, t2, d2) = t.inserting(d, key, value);
            &&& outcome == Ok::<bool, Error>(true)
            &&& d2.dat.len() == end + 8 + t.header.block_size
            &&& d2.key.len() == d.key.len()
            &&& crate::plain::number_at(d2.key, base, 2) == 1
            &&& crate::plain::number_at(d2.key, base + 2, 6) == end
            &&& crate::plain::number_at(d2.key, base + 8, 6) == d.dat.len()
            &&& crate::plain::number_at(d2.key, base + 14, 6) == value.len()
            &&& crate::plain::number_at(d2.key, base + 20, 6) == hash / 0x1_0000
            &&& crate::plain::number_at(d2.dat, end, 6) == 0
            &&& crate::plain::number_at(d2.dat, end + 6, 2) == t.header.block_size
            &&& crate::plain::number_at(d2.dat, end + 8, 2) == (t.header.block_size - 8) / 18
            &&& crate::plain::number_at(d2.dat, end + 10, 6) == crate::plain::number_at(
                d.key,
                base + 2,
                6,
            )
            &&& crate::plain::number_at(d2.dat, end + 16 + 18 * k, 6) == crate::plain::number_at(
                d.key,
                base + 8 + 18 * k,
                6,
            )
            &&& crate::plain::number_at(d2.dat, end + 22 + 18 * k, 6) == crate::plain::number_at(
                d.key,
                base + 14 + 18 * k,
                6,
            )
            &&& crate::plain::number_at(d2.dat, end + 28 + 18 * k, 6) == crate::plain::number_at(
                d.key,
                base + 20 + 18 * k,
                6,
            )
            &&& forall|j: int|
                0 <= j < t.header.bucket_count && j != i ==> #[trigger] crate::effects::block_at(
                    d2.key,
                    t.header.block_size as int,
                    j,
                ) == crate::effects::block_at(d.key, t.header.block_size as int, j)
        }),
{
    let hash = t.hash(key);
    let i = t.index(hash);
    let bs = t.bs();
    let base = (i + 1) * bs;
    let counted = t.counting((t.header.key_count + 1) as u64);
    assert(t.well_formed(d)) by {
        reveal(Table::intact);
    }
    t.lemma_key_count_bound(d);
    t.lemma_level_bound();
    crate::linear::law_index_in_range(t.level, t.next, t.header.bucket_count, hash);
    t.lemma_block_offset(i);
    crate::conduct::lemma_insert_outcome(t, d, key, value);
    crate::conduct::lemma_load(counted);
    assert(t.bucket_ok(d, i));
    let block = t.block_of(d, i);
    let home = t.home(d, i)->Some_0;
    crate::bucket::lemma_decoded_bucket_fits(block);
    crate::plain::law_bucket_read(block, k);
    crate::places::lemma_number_within(d.key, base, base + bs, 0, 2);
    crate::places::lemma_home_numbers(t, d.key, i, home, k);
    lemma_spilled(t, d, key, value);
    let end = (d.dat.len() + 6 + key.len() + value.len()) as int;
    lemma_spill_numbers(t.inserting(d, key, value).2.dat, end, home, bs, k);
}

/// What an insert into a bucket without a place left writes.
proof fn lemma_spilled(t: Table, d: Disk, key: Seq<u8>, value: Seq<u8>)
    requires
        t.intact(d),
        t.well_formed(d),
        key.len() == t.header.key_size,
        !t.contents(d).contains_key(key),
        0 <= t.index(t.hash(key)) < t.header.bucket_count,
        t.home(d, t.index(t.hash(key))) matches Some(home) && home.entries.len()
            == t.header.capacity() && home.fits(t.bs()),
        !t.counting((t.header.key_count + 1) as u64).overloaded(),
        d.dat.len() + 6 + key.len() + value.len() < 0x1_0000_0000_0000,
    ensures
        ({
            let i = t.index(t.hash(key));
            let home = t.home(d, i)->Some_0;
            let base = (i + 1) * t.header.block_size;
            let end = (d.dat.len() + 6 + key.len() + value.len()) as int;
            let (outcome, t2, d2) = t.inserting(d, key, value);
            &&& outcome == Ok::<bool, Error>(true)
            &&& d2.dat.len() == end + 8 + t.header.block_size
            &&& d2.dat.skip(end) == crate::write::spill_record(home, t.bs())
            &&& d2.key.len() == d.key.len()
            &&& crate::plain::number_at(d2.key, base, 2) == 1
            &&& crate::plain::number_at(d2.key, base + 2, 6) == end
            &&& crate::plain::number_at(d2.key, base + 8, 6) == d.dat.len()
            &&& crate::plain::number_at(d2.key, base + 14, 6) == value.len()
            &&& crate::plain::number_at(d2.key, base + 20, 6) == t.hash(key) / 0x1_0000
            &&& forall|j: int|
                0 <= j < t.header.bucket_count && j != i ==> #[trigger] crate::effects::block_at(
                    d2.key,
                    t.bs(),
                    j,
                ) == crate::effects::block_at(d.key, t.bs(), j)
        }),
{
    let i = t.index(t.hash(key));
    let e = t.entry_for(t.exhausted(d, key), value, d.dat.len() as u64);
    let end = (d.dat.len() + 6 + key.len() + value.len()) as int;
    let bare = BucketView { spill: end as u64, entries: Seq::empty() };
    let after = bare.with_entry(e);
    let (t1, d1) = t.stored(d, key, value);
    lemma_spill_written(t, d, key, value);
    crate::write::lemma_with_entry_fits(t.header, bare, e);
    crate::bucket::lemma_slot_range(bare.entries, e.hash);
    crate::ops::lemma_key_file(t, d, t1, i, after);
    crate::places::lemma_home_numbers(t, d1.key, i, after, 0);
    assert(after.entries[0] == e);
    assert(t.inserting(d, key, value).0 == Ok::<bool, Error>(true) && t.inserting(d, key, value).2
        == d1) by {
        t.lemma_inserting(d, key, value);
    }
}

/// The files after a key has been stored in a bucket without a place left.
proof fn lemma_spill_written(t: Table, d: Disk, key: Seq<u8>, value: Seq<u8>)
    requires
        t.well_formed(d),
        0 <= t.index(t.hash(key)) < t.header.bucket_count,
        t.home(d, t.index(t.hash(key))) matches Some(home) && home.entries.len()
            == t.header.capacity() && home.fits(t.bs()),
        d.dat.len() + 6 + key.len() + value.len() < 0x1_0000_0000_0000,
    ensures
        t.storing(d, key, value) is Ok,
        ({
            let i = t.index(t.hash(key));
            let home = t.home(d, i)->Some_0;
            let e = t.entry_for(t.exhausted(d, key), value, d.dat.len() as u64);
            let end = (d.dat.len() + 6 + key.len() + value.len()) as int;
            let after = BucketView { spill: end as u64, entries: Seq::empty() }.with_entry(e);
            let (t1, d1) = t.stored(d, key, value);
            &&& d1.dat.len() == end + 8 + t.bs()
            &&& d1.dat.skip(end) == crate::write::spill_record(home, t.bs())
            &&& d1.key == crate::effects::spliced(
                crate::effects::spliced(d.key, (i + 1) * t.bs(), after.encoding(t.bs())),
                0,
                t1.header.block(),
            )
            &&& e.offset == d.dat.len()
            &&& e.size == value.len()
            &&& e.hash == t.hash(key) / 0x1_0000
            &&& e.fits()
        }),
{
    broadcast use crate::codec::lemma_be_bytes_len;

    let i = t.index(t.hash(key));
    let home = t.home(d, i)->Some_0;
    let l = t.exhausted(d, key);
    let end = (d.dat.len() + 6 + key.len() + value.len()) as int;
    let record = crate::write::data_record(key, value);
    let tail = crate::write::spill_record(home, t.bs());
    t.lemma_level_bound();
    t.lemma_block_offset(i);
    crate::plain::law_spill_bytes(home, t.bs());
    assert(l.walk.home == home && l.walk.index == i);
    let writes = t.storing(d, key, value)->Ok_0;
    crate::effects::lemma_two_written(d, writes);
    let (t1, d1) = t.stored(d, key, value);
    assert(d1.dat =~= d.dat + (record + tail));
    assert(d1.dat.skip(end) =~= tail);
}

/// The numbers of a spill record.
proof fn lemma_spill_numbers(dat: Seq<u8>, at: int, bucket: BucketView, bs: int, k: int)
    requires
        0 <= at,
        bucket.fits(bs),
        dat.len() == at + 8 + bs,
        dat.skip(at) == crate::write::spill_record(bucket, bs),
        0 <= k < bucket.entries.len(),
    ensures
        crate::plain::number_at(dat, at, 6) == 0,
        crate::plain::number_at(dat, at + 6, 2) == bs,
        crate::plain::number_at(dat, at + 8, 2) == bucket.entries.len(),
        crate::plain::number_at(dat, at + 10, 6) == bucket.spill,
        crate::plain::number_at(dat, at + 16 + 18 * k, 6) == bucket.entries[k].offset,
        crate::plain::number_at(dat, at + 22 + 18 * k, 6) == bucket.entries[k].size,
        crate::plain::number_at(dat, at + 28 + 18 * k, 6) == bucket.entries[k].hash,
{
    let bytes = crate::write::spill_record(bucket, bs);
    let block = bucket.encoding(bs);
    crate::plain::law_spill_bytes(bucket, bs);
    crate::bucket::law_bucket_read_back(bucket, bs);
    crate::plain::law_bucket_read(block, k);
    assert(dat.subrange(at, at + 8 + bs) =~= bytes);
    assert(dat.subrange(at + 8, at + 8 + bs) =~= bytes.subrange(8, 8 + bs));
    crate::places::lemma_number_within(dat, at, at + 8 + bs, 0, 6);
    crate::places::lemma_number_within(dat, at, at + 8 + bs, 6, 2);
    crate::places::lemma_number_within(dat, at + 8, at + 8 + bs, 0, 2);
    crate::places::lemma_number_within(dat, at + 8, at + 8 + bs, 2, 6);
    crate::places::lemma_number_within(dat, at + 8, at + 8 + bs, 8 + 18 * k, 6);
    crate::places::lemma_number_within(dat, at + 8, at + 8 + bs, 14 + 18 * k, 6);
    crate::places::lemma_number_within(dat, at + 8, at + 8 + bs, 20 + 18 * k, 6);
}

/// Splitting a bucket that has no spill record adds nothing to the data file.
pub proof fn law_split_without_spill(t: Table, d: Disk)
    requires
        t.intact(d),
        crate::plain::number_at(d.key, (t.next + 1) * t.header.block_size + 2, 6) == 0,
    ensures
        t.balancing(d).2.dat == d.dat,
{
    assert(t.well_formed(d)) by {
        reveal(Table::intact);
    }
    let i = t.next as int;
    let bs = t.bs();
    let base = (i + 1) * bs;
    t.lemma_level_bound();
    vstd::arithmetic::power2::lemma_pow2_pos(t.level as nat);
    t.lemma_block_offset(i);
    t.lemma_balancing(d);
    assert(t.bucket_ok(d, i));
    let block = t.block_of(d, i);
    let home = t.home(d, i)->Some_0;
    crate::bucket::lemma_decoded_bucket_fits(block);
    crate::plain::law_bucket_read(block, 0);
    crate::places::lemma_number_within(d.key, base, base + bs, 2, 6);
    assert(t.entries(d, i) =~= home.entries);
    let sp = t.split_of(d);
    crate::laws::lemma_filters(
        t.entries(d, i),
        crate::ops::staying(t, d),
        crate::ops::leaving(t, d),
    );
    lemma_no_tail(t.header, sp.keep, d.dat.len() as int);
    lemma_no_tail(t.header, sp.moved, d.dat.len() as int);
    if t.overloaded() && t.split_error(d) is None {
        let writes = t.splitted(sp, d.dat.len() as u64)->Ok_0;
        crate::effects::lemma_three_written(d, writes);
        assert(d.dat.len() as u64 == d.dat.len()) by {
            reveal(Table::intact);
        }
        assert(t.after_split(d).1.dat =~= d.dat);
    }
}

/// As many entries as a bucket has places for spill nothing.
proof fn lemma_no_tail(
    header: crate::format::KeyHeader,
    entries: Seq<crate::bucket::BucketEntry>,
    end: int,
)
    requires
        header.capacity() >= 1,
        entries.len() <= header.capacity(),
    ensures
        crate::write::gathered(header, entries, end).1.len() == 0,
        crate::write::gathered(header, entries, end).0.entries.len() == entries.len(),
    decreases entries.len(),
{
    if entries.len() > 0 {
        lemma_no_tail(header, entries.drop_last(), end);
        let bucket = crate::write::gathered(header, entries.drop_last(), end).0;
        crate::bucket::lemma_slot_range(bucket.entries, entries.last().hash);
    }
}

/// Where the bucket of a key that is not stored has no place left, and its spill
/// record would start at an offset of more than 48 bits, the key is not
/// inserted, and nothing changes.
pub proof fn law_no_room_to_spill(t: Table, d: Disk, key: Seq<u8>, value: Seq<u8>)
    requires
        t.intact(d),
        key.len() == t.header.key_size,
        t.fetching(d, key) == Ok::<Option<Seq<u8>>, Error>(None),
        ({
            let hash = crate::hash::xxh64_value(key, t.header.salt);
            let i = crate::linear::index_of(t.level, t.next, hash);
            crate::plain::number_at(d.key, (i + 1) * t.header.block_size, 2) == (t.header.block_size
                - 8) / 18
        }),
        d.dat.len() + 6 + key.len() + value.len() >= 0x1_0000_0000_0000,
    ensures
        t.inserting(d, key, value) == (Err::<bool, Error>(Error::DataFileFull), t, d),
        t.upserting(d, key, value).0 == Err::<(), Error>(Error::DataFileFull),
        t.upserting(d, key, value).1 == t,
        t.upserting(d, key, value).2.key == d.key,
{
    broadcast use crate::codec::lemma_be_bytes_len;

    let hash = t.hash(key);
    let i = t.index(hash);
    let bs = t.bs();
    let base = (i + 1) * bs;
    assert(t.well_formed(d)) by {
        reveal(Table::intact);
    }
    t.lemma_level_bound();
    crate::linear::law_index_in_range(t.level, t.next, t.header.bucket_count, hash);
    t.lemma_block_offset(i);
    crate::conduct::lemma_insert_outcome(t, d, key, value);
    assert(t.bucket_ok(d, i));
    let block = t.block_of(d, i);
    crate::bucket::lemma_decoded_bucket_fits(block);
    crate::plain::law_bucket_read(block, 0);
    crate::places::lemma_number_within(d.key, base, base + bs, 0, 2);
    assert(t.exhausted(d, key).walk.home == t.home(d, i)->Some_0);
    assert(d.dat.len() as u64 == d.dat.len());
    assert(t.storing(d, key, value) is Err);
    t.lemma_inserting(d, key, value);
    t.lemma_upserting(d, key, value);
}

/// Where a bucket is to be split and the key file cannot take one more block, a
/// key that is inserted is stored and counted, but the insert says that the key
/// file is full.
pub proof fn law_key_file_full(t: Table, d: Disk, key: Seq<u8>, value: Seq<u8>)
    requires
        t.intact(d),
        key.len() == t.header.key_size,
        t.fetching(d, key) == Ok::<Option<Seq<u8>>, Error>(None),
        d.dat.len() + 6 + key.len() + value.len() < 0x1_0000_0000_0000,
        (t.header.key_count + 1) * 65536 / (t.header.bucket_count * ((t.header.block_size - 8)
            / 18)) > t.header.load_factor,
        (t.header.bucket_count + 2) * t.header.block_size > 0x7fff_ffff_ffff_ffff,
    ensures
        ({
            let (outcome, t2, d2) = t.inserting(d, key, value);
            &&& outcome == Err::<bool, Error>(Error::KeyFileFull)
            &&& t2.header.key_count == t.header.key_count + 1
            &&& t2.header.bucket_count == t.header.bucket_count
            &&& t2.fetching(d2, key) == Ok::<Option<Seq<u8>>, Error>(Some(value))
        }),
{
    broadcast use crate::codec::lemma_be_bytes_len;

    let (outcome, t2, d2) = t.inserting(d, key, value);
    assert(t.well_formed(d)) by {
        reveal(Table::intact);
    }
    t.lemma_key_count_bound(d);
    crate::conduct::law_files_state_header(t, d);
    crate::conduct::lemma_insert_outcome(t, d, key, value);
    crate::conduct::lemma_load(t.counting((t.header.key_count + 1) as u64));
    assert(d.dat.len() as u64 == d.dat.len());
    assert(t.storing(d, key, value) is Ok);
    t.lemma_inserting(d, key, value);
    assert(t2.well_formed(d2)) by {
        reveal(Table::intact);
    }
    t2.lemma_sought(d2, key, true);
}

/// The spill records that so many entries take: a bucket fills up first.
pub open spec fn pages_for(count: int, places: int) -> int {
    if count == 0 {
        0
    } else {
        (count - 1) / places
    }
}

/// Whether the key of an entry goes to a bucket by its hash and a modulus.
pub open spec fn goes_to(t: Table, d: Disk, bucket: int, modulus: int) -> spec_fn(
    crate::bucket::BucketEntry,
) -> bool {
    |e: crate::bucket::BucketEntry|
        crate::hash::xxh64_value(
            d.dat.subrange(e.offset + 6, e.offset + 6 + t.header.key_size),
            t.header.salt,
        ) as int % modulus == bucket
}

/// A store over its load factor splits its next bucket. That takes a block in
/// the key file, and a spill record for each time that the entries that stay or
/// the entries that go fill a bucket. Where the key file has no room for the
/// block, or where the last of the spill records would start at an offset of
/// more than 48 bits, nothing changes.
pub proof fn law_split_cost(t: Table, d: Disk)
    requires
        t.intact(d),
        t.header.key_count * 65536 / (t.header.bucket_count * ((t.header.block_size - 8) / 18))
            > t.header.load_factor,
    ensures
        ({
            let s = t.entries(d, t.next as int);
            let modulus = 2 * vstd::arithmetic::power2::pow2(t.level as nat);
            let kept = s.filter(goes_to(t, d, t.next as int, modulus as int)).len();
            let places = (t.header.block_size - 8) / 18;
            let pages = pages_for(kept as int, places) + pages_for(s.len() - kept, places);
            let size = 8 + t.header.block_size;
            let (outcome, t2, d2) = t.balancing(d);
            &&& outcome == if (t.header.bucket_count + 2) * t.header.block_size
                > 0x7fff_ffff_ffff_ffff {
                Err(Error::KeyFileFull)
            } else if pages > 0 && d.dat.len() + (pages - 1) * size >= 0x1_0000_0000_0000 {
                Err(Error::DataFileFull)
            } else {
                Ok::<(), Error>(())
            }
            &&& outcome is Ok ==> d2.dat.len() == d.dat.len() + pages * size
                && t2.header.bucket_count == t.header.bucket_count + 1
            &&& outcome is Err ==> t2 == t && d2 == d
        }),
{
    assert(t.well_formed(d)) by {
        reveal(Table::intact);
    }
    crate::conduct::law_files_state_header(t, d);
    crate::conduct::lemma_load(t);
    t.lemma_level_bound();
    t.lemma_balancing(d);
    let i = t.next as int;
    let s = t.entries(d, i);
    vstd::arithmetic::power2::lemma_pow2_pos(t.level as nat);
    vstd::arithmetic::power2::lemma_pow2_unfold((t.level + 1) as nat);
    let modulus = 2 * vstd::arithmetic::power2::pow2(t.level as nat);
    assert(goes_to(t, d, i, modulus as int) =~= crate::ops::staying(t, d));
    crate::laws::lemma_filters(s, crate::ops::staying(t, d), crate::ops::leaving(t, d));
    if t.split_error(d) is None {
        lemma_split_size(t, d);
    }
}

/// What a split adds to the data file.
proof fn lemma_split_size(t: Table, d: Disk)
    requires
        t.well_formed(d),
        t.next < t.header.bucket_count,
        t.overloaded(),
        t.split_error(d) is None,
    ensures
        t.after_split(d).1.dat.len() == d.dat.len() + t.split_spills(t.split_of(d))
            * crate::write::spill_size(t.header),
{
    let sp = t.split_of(d);
    let at = d.dat.len() as int;
    let s = t.entries(d, t.next as int);
    let a = crate::write::spills(t.header, sp.keep.len() as int);
    let b = crate::write::spills(t.header, sp.moved.len() as int);
    crate::write::lemma_spills_monotone(t.header, 0, sp.keep.len() as int);
    crate::write::lemma_spills_monotone(t.header, 0, sp.moved.len() as int);
    crate::write::lemma_room_parts(t.header, at, a, b);
    lemma_filtered_fits(t, d, crate::ops::staying(t, d));
    lemma_filtered_fits(t, d, crate::ops::leaving(t, d));
    crate::write::lemma_gathered(t.header, sp.keep, at);
    crate::write::lemma_gathered(t.header, sp.moved, at + a * crate::write::spill_size(t.header));
    assert(d.dat.len() as u64 == d.dat.len());
    let writes = t.splitted(sp, d.dat.len() as u64)->Ok_0;
    crate::effects::lemma_three_written(d, writes);
}

proof fn lemma_filtered_fits(t: Table, d: Disk, p: spec_fn(crate::bucket::BucketEntry) -> bool)
    requires
        t.well_formed(d),
        t.next < t.header.bucket_count,
    ensures
        forall|k: int|
            0 <= k < t.entries(d, t.next as int).filter(p).len() ==> (#[trigger] t.entries(
                d,
                t.next as int,
            ).filter(p)[k]).fits(),
{
    let s = t.entries(d, t.next as int);
    assert forall|k: int| 0 <= k < s.filter(p).len() implies (#[trigger] s.filter(p)[k]).fits() by {
        let e = s.filter(p)[k];
        s.lemma_filter_contains_rev(p, e);
        crate::places::lemma_listed_fits(t, d, t.next as int, e);
    }
}

/// A bucket that entries were gathered in holds them in the order of their
/// hashes.
pub proof fn law_gathered_in_order(
    header: crate::format::KeyHeader,
    entries: Seq<crate::bucket::BucketEntry>,
    end: int,
)
    ensures
        crate::write::gathered(header, entries, end).0.sorted(),
    decreases entries.len(),
{
    if entries.len() > 0 {
        law_gathered_in_order(header, entries.drop_last(), end);
        let (bucket, tail) = crate::write::gathered(header, entries.drop_last(), end);
        crate::bucket::law_insertion_keeps_order(bucket, entries.last());
        crate::bucket::law_insertion_keeps_order(
            BucketView { spill: (end + tail.len()) as u64, entries: Seq::empty() },
            entries.last(),
        );
    }
}

/// A removal leaves the other entries of the bucket, in their order.
pub proof fn law_removal_keeps_order(t: Table, l: crate::lookup::LookupView, at: int)
    requires
        l.sound(),
        l.found(),
        t.removal(l) is Ok,
        l.walk.stage->At_index == at,
        t.header.block_size >= 8,
    ensures
        t.removal(l)->Ok_0.len() == 1,
        ({
            let before = l.walk.current();
            BucketView::decoding(t.removal(l)->Ok_0[0].bytes) matches Some(after) && {
                &&& after.spill == before.spill
                &&& after.entries == before.entries.take(at) + before.entries.skip(at + 1)
                &&& before.sorted() ==> after.sorted()
            }
        }),
{
    let before = l.walk.current();
    let after = BucketView { entries: before.entries.remove(at), ..before };
    assert(after.entries =~= before.entries.take(at) + before.entries.skip(at + 1));
    assert forall|i: int| 0 <= i < after.entries.len() implies (#[trigger] after.entries[i]).fits() by {
        let j = if i < at {
            i
        } else {
            i + 1
        };
        assert(after.entries[i] == before.entries[j]);
    }
    crate::bucket::law_bucket_read_back(after, t.header.block_size as int);
}

/// Giving a found key another value changes the key's entry and no other, where
/// it stands: in the bucket's block, or in the bucket of the spill record, and
/// then the block is written again as it was read.
pub proof fn law_update_written(
    t: Table,
    l: crate::lookup::LookupView,
    size: u64,
    offset: u64,
    at: int,
)
    requires
        l.sound(),
        l.found(),
        t.repointing(l, size, offset) is Ok,
        l.walk.stage->At_index == at,
        l.walk.block_size == t.header.block_size,
        t.header.block_size >= 104,
        size < 0x1_0000_0000_0000,
        offset < 0x1_0000_0000_0000,
    ensures
        ({
            let writes = t.repointing(l, size, offset)->Ok_0;
            let before = l.walk.current();
            let base = (l.walk.index + 1) * t.header.block_size;
            &&& BucketView::decoding(writes[0].bytes) matches Some(after) && {
                &&& after.spill == before.spill
                &&& after.entries.len() == before.entries.len()
                &&& after.entries[at].offset == offset
                &&& after.entries[at].size == size
                &&& after.entries[at].hash == l.walk.filter->Some_0
                &&& forall|i: int|
                    0 <= i < before.entries.len() && i != at ==> after.entries[i]
                        == before.entries[i]
            }
            &&& l.walk.page == 0 ==> {
                &&& writes.len() == 1
                &&& writes[0].file == FileKind::Key
                &&& writes[0].offset == base
            }
            &&& l.walk.page != 0 ==> {
                &&& writes.len() == 2
                &&& writes[0].file == FileKind::Dat
                &&& writes[0].offset == l.walk.page + 8
                &&& writes[1].file == FileKind::Key
                &&& writes[1].offset == base
                &&& BucketView::decoding(writes[1].bytes) == Some(l.walk.home)
            }
        }),
{
    let before = l.walk.current();
    let e = crate::bucket::BucketEntry { offset, size, hash: l.walk.filter->Some_0 };
    let after = BucketView { entries: before.entries.update(at, e), ..before };
    assert forall|i: int| 0 <= i < after.entries.len() implies (#[trigger] after.entries[i]).fits() by {
        if i != at {
            assert(after.entries[i] == before.entries[i]);
        }
    }
    crate::bucket::law_bucket_read_back(after, t.header.block_size as int);
    crate::bucket::law_bucket_read_back(l.walk.home, t.header.block_size as int);
}

/// What a removal writes goes where the key's entry stands.
pub proof fn law_removal_written(t: Table, l: crate::lookup::LookupView)
    requires
        l.sound(),
        l.found(),
        t.removal(l) is Ok,
        l.walk.block_size == t.header.block_size,
    ensures
        ({
            let write = t.removal(l)->Ok_0[0];
            if l.walk.page == 0 {
                &&& write.file == FileKind::Key
                &&& write.offset == (l.walk.index + 1) * t.header.block_size
            } else {
                &&& write.file == FileKind::Dat
                &&& write.offset == l.walk.page + 8
            }
        }),
{
    let base = (l.walk.index + 1) * t.header.block_size;
    assert(base >= 0) by (nonlinear_arith)
        requires
            base == (l.walk.index + 1) * t.header.block_size,
    ;
}

} // verus!

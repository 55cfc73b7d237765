//! The data file read from its start: which value records it holds.

use crate::bucket::{BucketEntry, BucketView};
use crate::error::Error;
use crate::format::{KeyHeader, DAT_HEADER_SIZE, KEY_HEADER_SIZE, LIMIT48, SPILL_HEADER_SIZE};
use crate::lookup::LookupView;
use crate::model::Disk;
use crate::table::{StoreOptions, Table};
use vstd::prelude::*;

verus! {

/// The offsets of the value records from `at` on, read one record after the
/// other. A record whose size field is zero is a spill record. None where the
/// file does not end with a record.
pub open spec fn scanned(dat: Seq<u8>, at: int) -> Option<Seq<int>>
    decreases dat.len() - at,
{
    if at == dat.len() {
        Some(Seq::empty())
    } else if at < 0 || at + 6 > dat.len() {
        None
    } else if crate::model::record_total(dat, at) == 0 {
        let next = at + SPILL_HEADER_SIZE + crate::format::field(dat, at + 6, 2);
        if next > dat.len() {
            None
        } else {
            scanned(dat, next)
        }
    } else {
        let next = crate::model::record_end(dat, at);
        if next > dat.len() {
            None
        } else {
            match scanned(dat, next) {
                Some(rest) => Some(seq![at] + rest),
                None => None,
            }
        }
    }
}

/// Every value record of the data file is stored under its key, no key has two
/// records, and there are as many records as keys.
pub open spec fn accounted(t: Table, d: Disk) -> bool {
    scanned(d.dat, DAT_HEADER_SIZE as int) matches Some(offsets) && {
        &&& offsets.len() == t.header.key_count
        &&& forall|k: int| 0 <= k < offsets.len() ==> stored_at(t, d, #[trigger] offsets[k])
        &&& forall|j: int, k: int|
            0 <= j < k < offsets.len() ==> crate::model::record_key(
                d.dat,
                t.ks(),
                #[trigger] offsets[j],
            ) != crate::model::record_key(d.dat, t.ks(), #[trigger] offsets[k])
    }
}

/// There is a value record at `at`, and it is the one stored under its key.
pub open spec fn stored_at(t: Table, d: Disk, at: int) -> bool {
    let key = crate::model::record_key(d.dat, t.ks(), at);
    &&& crate::model::record_ok(d.dat, t.ks(), at)
    &&& t.contents(d).contains_key(key)
    &&& t.contents(d)[key] == crate::model::record_value(d.dat, t.ks(), at)
}

/// The table and the files after keys have been inserted with their values,
/// one after the other, whatever that returned.
pub open spec fn filled(t: Table, d: Disk, pairs: Seq<(Seq<u8>, Seq<u8>)>) -> (Table, Disk)
    decreases pairs.len(),
{
    if pairs.len() == 0 {
        (t, d)
    } else {
        let (t1, d1) = filled(t, d, pairs.drop_last());
        let (_, t2, d2) = t1.inserting(d1, pairs.last().0, pairs.last().1);
        (t2, d2)
    }
}

/// The records of a file are read the same when more is appended to it.
proof fn lemma_scan_append(dat: Seq<u8>, at: int, more: Seq<u8>)
    requires
        0 <= at <= dat.len(),
        scanned(dat, at) is Some,
        scanned(dat + more, dat.len() as int) is Some,
    ensures
        scanned(dat + more, at) == Some(
            scanned(dat, at)->Some_0 + scanned(dat + more, dat.len() as int)->Some_0,
        ),
    decreases dat.len() - at,
{
    let all = dat + more;
    if at == dat.len() {
        assert(scanned(dat, at)->Some_0 + scanned(all, at)->Some_0 =~= scanned(all, at)->Some_0);
    } else {
        assert(all.subrange(at, at + 6) =~= dat.subrange(at, at + 6));
        if crate::model::record_total(dat, at) == 0 {
            let next = at + SPILL_HEADER_SIZE + crate::format::field(dat, at + 6, 2);
            assert(all.subrange(at + 6, at + 8) =~= dat.subrange(at + 6, at + 8));
            lemma_scan_append(dat, next, more);
        } else {
            let next = crate::model::record_end(dat, at);
            lemma_scan_append(dat, next, more);
            let rest = scanned(dat, next)->Some_0;
            let last = scanned(all, dat.len() as int)->Some_0;
            assert(seq![at] + (rest + last) =~= seq![at] + rest + last);
        }
    }
}

/// An appended value record is read as one.
proof fn lemma_scan_record(dat: Seq<u8>, key: Seq<u8>, value: Seq<u8>)
    requires
        0 < key.len() + value.len() < LIMIT48,
    ensures
        scanned(dat + crate::write::data_record(key, value), dat.len() as int) == Some(
            seq![dat.len() as int],
        ),
{
    broadcast use crate::codec::lemma_be_bytes_len;

    let at = dat.len() as int;
    let all = dat + crate::write::data_record(key, value);
    let size = crate::codec::be_bytes(key.len() + value.len(), 6);
    crate::codec::lemma_radix_values();
    crate::codec::law_integer_read_back(key.len() + value.len(), 6);
    assert(all.subrange(at, at + 6) =~= size);
    assert(crate::model::record_end(all, at) == all.len());
    reveal_with_fuel(scanned, 2);
    assert(seq![at] + Seq::empty() =~= seq![at]);
}

/// An appended spill record is read as one.
proof fn lemma_scan_spill(dat: Seq<u8>, bucket: BucketView, bs: int)
    requires
        bucket.fits(bs),
    ensures
        scanned(dat + crate::write::spill_record(bucket, bs), dat.len() as int) == Some(
            Seq::<int>::empty(),
        ),
{
    broadcast use crate::codec::lemma_be_bytes_len;

    let at = dat.len() as int;
    let all = dat + crate::write::spill_record(bucket, bs);
    crate::bucket::law_bucket_read_back(bucket, bs);
    crate::codec::lemma_radix_values();
    crate::codec::law_integer_read_back(bs as nat, 2);
    assert(all.subrange(at, at + 6) =~= crate::format::zeros(6));
    assert(crate::codec::be_value(crate::format::zeros(6)) == 0) by {
        reveal_with_fuel(crate::codec::be_value, 7);
    }
    assert(all.subrange(at + 6, at + 8) =~= crate::codec::be_bytes(bs as nat, 2));
    reveal_with_fuel(scanned, 2);
}

/// What gathering entries appends is read as spill records.
proof fn lemma_scan_gathered(header: KeyHeader, entries: Seq<BucketEntry>, dat: Seq<u8>)
    requires
        header.capacity() >= 1,
        crate::write::room_for(
            header,
            dat.len() as int,
            crate::write::spills(header, entries.len() as int),
        ),
        forall|i: int| 0 <= i < entries.len() ==> (#[trigger] entries[i]).fits(),
    ensures
        scanned(
            dat + crate::write::gathered(header, entries, dat.len() as int).1,
            dat.len() as int,
        ) == Some(Seq::<int>::empty()),
    decreases entries.len(),
{
    let at = dat.len() as int;
    if entries.len() == 0 {
        assert(dat + crate::write::gathered(header, entries, at).1 =~= dat);
    } else {
        let rest = entries.drop_last();
        let size = crate::write::spill_size(header);
        let less = crate::write::spills(header, rest.len() as int);
        let count = crate::write::spills(header, entries.len() as int);
        crate::write::lemma_spills_monotone(header, rest.len() as int, entries.len() as int);
        assert((less - 1) * size <= (count - 1) * size) by (nonlinear_arith)
            requires
                less <= count,
                size >= 0,
        ;
        assert forall|i: int| 0 <= i < rest.len() implies (#[trigger] rest[i]).fits() by {
            assert(rest[i] == entries[i]);
        }
        lemma_scan_gathered(header, rest, dat);
        crate::write::lemma_gathered(header, rest, at);
        let (bucket, tail) = crate::write::gathered(header, rest, at);
        let (_, more) = crate::write::placed(header, bucket, entries.last(), at + tail.len());
        let base = dat + tail;
        assert(dat + (tail + more) =~= base + more);
        if bucket.entries.len() >= header.capacity() {
            lemma_scan_spill(base, bucket, header.block_size as int);
            lemma_scan_append(base, at, more);
            assert(Seq::<int>::empty() + Seq::<int>::empty() =~= Seq::<int>::empty());
        } else {
            assert(base + more =~= base);
        }
    }
}

/// The records that are accounted for stay so where the file only grows, and
/// by no record, and what is stored stays.
proof fn lemma_accounted_kept(t: Table, d: Disk, t2: Table, d2: Disk, more: Seq<u8>)
    requires
        accounted(t, d),
        d.dat.len() >= DAT_HEADER_SIZE,
        d2.dat == d.dat + more,
        scanned(d2.dat, d.dat.len() as int) == Some(Seq::<int>::empty()),
        t2.header.key_size == t.header.key_size,
        t2.header.key_count == t.header.key_count,
        t2.contents(d2) == t.contents(d),
    ensures
        accounted(t2, d2),
{
    let offsets = scanned(d.dat, DAT_HEADER_SIZE as int)->Some_0;
    lemma_scan_append(d.dat, DAT_HEADER_SIZE as int, more);
    assert(offsets + Seq::<int>::empty() =~= offsets);
    assert forall|k: int| 0 <= k < offsets.len() implies {
        &&& stored_at(t2, d2, #[trigger] offsets[k])
        &&& crate::model::record_key(d2.dat, t.ks(), offsets[k]) == crate::model::record_key(
            d.dat,
            t.ks(),
            offsets[k],
        )
    } by {
        assert(stored_at(t, d, offsets[k]));
        crate::model::lemma_record_same(d.dat, d2.dat, t.ks(), offsets[k]);
    }
}

/// One more record is accounted for, of a key that was not stored.
proof fn lemma_accounted_added(
    t: Table,
    d: Disk,
    t2: Table,
    d2: Disk,
    key: Seq<u8>,
    value: Seq<u8>,
    more: Seq<u8>,
)
    requires
        accounted(t, d),
        DAT_HEADER_SIZE <= d.dat.len(),
        key.len() == t.header.key_size,
        0 < key.len() + value.len(),
        key.len() + value.len() < LIMIT48,
        d2.dat == d.dat + crate::write::data_record(key, value) + more,
        scanned(d2.dat, (d.dat + crate::write::data_record(key, value)).len() as int) == Some(
            Seq::<int>::empty(),
        ),
        t2.header.key_size == t.header.key_size,
        t2.header.key_count == t.header.key_count + 1,
        !t.contents(d).contains_key(key),
        t2.contents(d2) == t.contents(d).insert(key, value),
    ensures
        accounted(t2, d2),
{
    broadcast use crate::codec::lemma_be_bytes_len;

    let record = crate::write::data_record(key, value);
    let at = d.dat.len() as int;
    let offsets = scanned(d.dat, DAT_HEADER_SIZE as int)->Some_0;
    let all = offsets + seq![at];
    lemma_scan_record(d.dat, key, value);
    lemma_scan_append(d.dat, DAT_HEADER_SIZE as int, record);
    lemma_scan_append(d.dat + record, DAT_HEADER_SIZE as int, more);
    assert(all + Seq::<int>::empty() =~= all);
    assert(d2.dat.subrange(at, at + 6 + key.len() + value.len()) =~= record);
    crate::ops::lemma_record_read_back(d2.dat, at, key, value);
    assert forall|k: int| 0 <= k < all.len() implies {
        &&& stored_at(t2, d2, #[trigger] all[k])
        &&& k < offsets.len() ==> crate::model::record_key(d2.dat, t.ks(), all[k])
            == crate::model::record_key(d.dat, t.ks(), offsets[k])
        &&& k < offsets.len() ==> crate::model::record_key(d2.dat, t.ks(), all[k]) != key
    } by {
        if k < offsets.len() {
            assert(all[k] == offsets[k]);
            assert(stored_at(t, d, offsets[k]));
            crate::model::lemma_record_same(d.dat, d2.dat, t.ks(), offsets[k]);
        }
    }
    assert forall|j: int, k: int| 0 <= j < k < all.len() implies crate::model::record_key(
        d2.dat,
        t.ks(),
        #[trigger] all[j],
    ) != crate::model::record_key(d2.dat, t.ks(), #[trigger] all[k]) by {
        assert(all[j] == offsets[j]);
        if k < offsets.len() {
            assert(all[k] == offsets[k]);
        } else {
            assert(all[k] == at);
        }
    }
}

/// Splitting a bucket keeps every record accounted for.
proof fn lemma_balancing_accounted(t: Table, d: Disk)
    requires
        t.intact(d),
        accounted(t, d),
    ensures
        accounted(t.balancing(d).1, t.balancing(d).2),
{
    let (outcome, t2, d2) = t.balancing(d);
    t.lemma_balancing(d);
    assert(t.well_formed(d)) by {
        reveal(Table::intact);
    }
    if t.overloaded() && outcome is Ok {
        t.lemma_regular(0);
        t.lemma_splitting_sound();
        crate::search::lemma_sorted_out_state(d, t.splitting(), d.dat.len());
        let sp = crate::search::sorted_out(d, t.splitting(), d.dat.len())->Ok_0;
        let writes = t.splitted(sp, d.dat.len() as u64)->Ok_0;
        crate::effects::lemma_three_written(d, writes);
        let (_, tail) = crate::write::gathered(t.header, sp.keep, d.dat.len() as int);
        let base = d.dat + tail;
        let (_, more) = crate::write::gathered(t.header, sp.moved, base.len() as int);
        let kept = crate::write::spills(t.header, sp.keep.len() as int);
        let gone = crate::write::spills(t.header, sp.moved.len() as int);
        crate::write::lemma_spills_monotone(t.header, 0, sp.keep.len() as int);
        crate::write::lemma_spills_monotone(t.header, 0, sp.moved.len() as int);
        crate::write::lemma_room_parts(t.header, d.dat.len() as int, kept, gone);
        crate::write::lemma_gathered(t.header, sp.keep, d.dat.len() as int);
        lemma_scan_gathered(t.header, sp.keep, d.dat);
        lemma_scan_gathered(t.header, sp.moved, base);
        lemma_scan_append(base, d.dat.len() as int, more);
        assert(Seq::<int>::empty() + Seq::<int>::empty() =~= Seq::<int>::empty());
        assert(d2.dat =~= d.dat + (tail + more));
        assert(d2.dat =~= base + more);
        lemma_accounted_kept(t, d, t2, d2, tail + more);
    }
}

/// Inserting a key keeps every record accounted for, whatever it returns. A
/// record of neither key nor value would be read as a spill record.
pub proof fn law_insert_accounted(t: Table, d: Disk, key: Seq<u8>, value: Seq<u8>)
    requires
        t.intact(d),
        accounted(t, d),
        key.len() == t.header.key_size,
        key.len() + value.len() > 0,
    ensures
        accounted(t.inserting(d, key, value).1, t.inserting(d, key, value).2),
{
    assert(t.well_formed(d)) by {
        reveal(Table::intact);
    }
    t.lemma_inserting(d, key, value);
    t.lemma_sought(d, key, true);
    t.lemma_key_count_bound(d);
    let l = t.sought(d, key, true)->Ok_0;
    if !t.contents(d).contains_key(key) {
        t.lemma_stored(d, l, value);
        if t.storing(d, key, value) is Ok {
            let (t1, d1) = t.stored(d, key, value);
            lemma_stored_accounted(t, d, l, value);
            lemma_balancing_accounted(t1, d1);
        }
    }
}

proof fn lemma_stored_accounted(t: Table, d: Disk, l: LookupView, value: Seq<u8>)
    requires
        t.intact(d),
        accounted(t, d),
        crate::progress::searching(t, d, l),
        crate::ops::standing(t, d, l.walk),
        l.key.len() == t.header.key_size,
        l.key.len() + value.len() > 0,
        !t.contents(d).contains_key(l.key),
        t.storing(d, l.key, value) is Ok,
    ensures
        ({
            let (t1, d1) = t.stored(d, l.key, value);
            accounted(t1, d1)
        }),
{
    broadcast use crate::codec::lemma_be_bytes_len;

    assert(t.well_formed(d)) by {
        reveal(Table::intact);
    }
    t.lemma_key_count_bound(d);
    t.lemma_stored(d, l, value);
    crate::ops::lemma_standing(t, d, l.walk);
    let (t1, d1) = t.stored(d, l.key, value);
    let len = d.dat.len() as u64;
    let writes = t.insertion(l, value, len)->Ok_0;
    let record = crate::write::data_record(l.key, value);
    let base = d.dat + record;
    let e = t.entry_for(l, value, len);
    let (_, tail) = crate::write::placed(t.header, l.walk.home, e, base.len() as int);
    crate::effects::lemma_two_written(d, writes);
    assert(d1.dat =~= base + tail);
    if l.walk.home.entries.len() >= t.header.capacity() {
        lemma_scan_spill(base, l.walk.home, t.bs());
    } else {
        assert(base + tail =~= base);
    }
    lemma_accounted_added(t, d, t1, d1, l.key, value, tail);
}

/// Keys inserted one after the other into intact files.
proof fn lemma_filled(t: Table, d: Disk, pairs: Seq<(Seq<u8>, Seq<u8>)>)
    requires
        t.intact(d),
        accounted(t, d),
        forall|i: int|
            0 <= i < pairs.len() ==> (#[trigger] pairs[i]).0.len() == t.header.key_size
                && pairs[i].0.len() + pairs[i].1.len() > 0,
    ensures
        ({
            let (t2, d2) = filled(t, d, pairs);
            &&& t2.intact(d2)
            &&& accounted(t2, d2)
            &&& t2.header.key_size == t.header.key_size
        }),
    decreases pairs.len(),
{
    if pairs.len() > 0 {
        let rest = pairs.drop_last();
        assert forall|i: int| 0 <= i < rest.len() implies (#[trigger] rest[i]).0.len()
            == t.header.key_size && rest[i].0.len() + rest[i].1.len() > 0 by {
            assert(rest[i] == pairs[i]);
        }
        lemma_filled(t, d, rest);
        let (t1, d1) = filled(t, d, rest);
        let (key, value) = pairs.last();
        assert(pairs[pairs.len() - 1].0.len() == t.header.key_size);
        t1.lemma_inserting(d1, key, value);
        law_insert_accounted(t1, d1, key, value);
    }
}

/// In a store that keys have been inserted into since it was created, every
/// value record of the data file can be reached through the key file: fetching
/// its key gives its value. No key has two records, and there are as many as
/// keys are counted.
pub proof fn law_values_reachable(
    options: StoreOptions,
    uid: u64,
    salt: u64,
    pairs: Seq<(Seq<u8>, Seq<u8>)>,
)
    requires
        options.block_size >= KEY_HEADER_SIZE,
        forall|i: int|
            0 <= i < pairs.len() ==> (#[trigger] pairs[i]).0.len() == options.key_size
                && pairs[i].0.len() + pairs[i].1.len() > 0,
    ensures
        ({
            let fresh = Table::fresh(options, uid, salt);
            let files = Disk { dat: fresh.new_dat(), key: fresh.new_key() };
            let (t, d) = filled(fresh, files, pairs);
            let ks = options.key_size as int;
            &&& scanned(d.dat, DAT_HEADER_SIZE as int) matches Some(offsets) && {
                &&& offsets.len() == t.header.key_count
                &&& forall|k: int|
                    0 <= k < offsets.len() ==> t.fetching(
                        d,
                        crate::model::record_key(d.dat, ks, #[trigger] offsets[k]),
                    ) == Ok::<Option<Seq<u8>>, Error>(
                        Some(crate::model::record_value(d.dat, ks, offsets[k])),
                    )
                &&& forall|j: int, k: int|
                    0 <= j < k < offsets.len() ==> crate::model::record_key(
                        d.dat,
                        ks,
                        #[trigger] offsets[j],
                    ) != crate::model::record_key(d.dat, ks, #[trigger] offsets[k])
            }
        }),
{
    broadcast use crate::codec::lemma_be_bytes_len;

    let fresh = Table::fresh(options, uid, salt);
    let files = Disk { dat: fresh.new_dat(), key: fresh.new_key() };
    Table::lemma_fresh(options, uid, salt);
    lemma_filled(fresh, files, pairs);
    let (t, d) = filled(fresh, files, pairs);
    let offsets = scanned(d.dat, DAT_HEADER_SIZE as int)->Some_0;
    assert forall|k: int| 0 <= k < offsets.len() implies t.fetching(
        d,
        crate::model::record_key(d.dat, t.ks(), #[trigger] offsets[k]),
    ) == Ok::<Option<Seq<u8>>, Error>(
        Some(crate::model::record_value(d.dat, t.ks(), offsets[k])),
    ) by {
        assert(stored_at(t, d, offsets[k]));
        assert(t.well_formed(d)) by {
            reveal(Table::intact);
        }
        t.lemma_sought(d, crate::model::record_key(d.dat, t.ks(), offsets[k]), true);
    }
}

} // verus!

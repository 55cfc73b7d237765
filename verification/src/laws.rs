//! What the operations of a store promise together.
//!
//! Each law speaks of the results, tables and files that the operations'
//! contracts name.

use crate::bucket::{BucketEntry, BucketView};
use crate::error::Error;
use crate::format::{LIMIT48, SPILL_HEADER_SIZE};
use crate::lookup::LookupView;
use crate::model::Disk;
use crate::table::Table;
use crate::walk::{FileKind, Request, Stage, WalkView};
use vstd::prelude::*;

verus! {

/// A key that was inserted is fetched with its value.
pub proof fn law_insert_then_fetch(t: Table, d: Disk, key: Seq<u8>, value: Seq<u8>)
    requires
        t.intact(d),
        key.len() == t.header.key_size,
        t.inserting(d, key, value).0 == Ok::<bool, Error>(true),
    ensures
        ({
            let (_, t2, d2) = t.inserting(d, key, value);
            t2.fetching(d2, key) == Ok::<Option<Seq<u8>>, Error>(Some(value))
        }),
{
    let (_, t2, d2) = t.inserting(d, key, value);
    t.lemma_inserting(d, key, value);
    lemma_fetching(t2, d2, key);
}

/// A key that is stored is not inserted again: nothing changes, and it keeps
/// its value.
pub proof fn law_insert_once(t: Table, d: Disk, key: Seq<u8>, first: Seq<u8>, second: Seq<u8>)
    requires
        t.intact(d),
        key.len() == t.header.key_size,
        t.inserting(d, key, first).0 == Ok::<bool, Error>(true),
    ensures
        ({
            let (_, t2, d2) = t.inserting(d, key, first);
            t2.inserting(d2, key, second) == (Ok::<bool, Error>(false), t2, d2)
        }),
{
    let (_, t2, d2) = t.inserting(d, key, first);
    t.lemma_inserting(d, key, first);
    t2.lemma_inserting(d2, key, second);
}

/// A key that was inserted or given another value is fetched with that value.
pub proof fn law_upsert_then_fetch(t: Table, d: Disk, key: Seq<u8>, value: Seq<u8>)
    requires
        t.intact(d),
        key.len() == t.header.key_size,
        t.upserting(d, key, value).0 == Ok::<(), Error>(()),
    ensures
        ({
            let (_, t2, d2) = t.upserting(d, key, value);
            t2.fetching(d2, key) == Ok::<Option<Seq<u8>>, Error>(Some(value))
        }),
{
    let (_, t2, d2) = t.upserting(d, key, value);
    t.lemma_upserting(d, key, value);
    lemma_fetching(t2, d2, key);
}

/// A key that was removed is not found, and is not removed again.
pub proof fn law_remove_then_fetch(t: Table, d: Disk, key: Seq<u8>)
    requires
        t.intact(d),
        key.len() == t.header.key_size,
    ensures
        ({
            let (_, t2, d2) = t.removing(d, key);
            &&& t2.fetching(d2, key) == Ok::<Option<Seq<u8>>, Error>(None)
            &&& t2.removing(d2, key) == (Ok::<bool, Error>(false), t2, d2)
        }),
{
    let (_, t2, d2) = t.removing(d, key);
    t.lemma_removing(d, key);
    lemma_fetching(t2, d2, key);
    t2.lemma_removing(d2, key);
}

/// What is done to one key leaves every other key as it was.
pub proof fn law_others_kept(t: Table, d: Disk, key: Seq<u8>, value: Seq<u8>, other: Seq<u8>)
    requires
        t.intact(d),
        key.len() == t.header.key_size,
        other.len() == t.header.key_size,
        other != key,
    ensures
        t.inserting(d, key, value).1.fetching(t.inserting(d, key, value).2, other) == t.fetching(
            d,
            other,
        ),
        t.upserting(d, key, value).1.fetching(t.upserting(d, key, value).2, other) == t.fetching(
            d,
            other,
        ),
        t.removing(d, key).1.fetching(t.removing(d, key).2, other) == t.fetching(d, other),
{
    let (_, t1, d1) = t.inserting(d, key, value);
    let (_, t2, d2) = t.upserting(d, key, value);
    let (_, t3, d3) = t.removing(d, key);
    t.lemma_inserting(d, key, value);
    t.lemma_upserting(d, key, value);
    t.lemma_removing(d, key);
    lemma_fetching(t, d, other);
    lemma_fetching(t1, d1, other);
    lemma_fetching(t2, d2, other);
    lemma_fetching(t3, d3, other);
}

/// The header counts the keys: one more for a key that was not stored, one
/// less for a key that is removed, and no change for another value.
pub proof fn law_keys_counted(t: Table, d: Disk, key: Seq<u8>, value: Seq<u8>)
    requires
        t.intact(d),
        key.len() == t.header.key_size,
    ensures
        t.header.key_count == t.contents(d).len(),
        t.inserting(d, key, value).0 == Ok::<bool, Error>(true) ==> t.inserting(
            d,
            key,
            value,
        ).1.header.key_count == t.header.key_count + 1,
        t.upserting(d, key, value).0 is Ok ==> t.upserting(d, key, value).1.header.key_count
            == if t.contents(d).contains_key(key) {
            t.header.key_count as int
        } else {
            t.header.key_count + 1
        },
        t.removing(d, key).1.header.key_count == if t.contents(d).contains_key(key) {
            t.header.key_count - 1
        } else {
            t.header.key_count as int
        },
{
    reveal(Table::intact);
    t.lemma_key_count_bound(d);
    t.lemma_inserting(d, key, value);
    t.lemma_upserting(d, key, value);
    t.lemma_removing(d, key);
    t.lemma_sought(d, key, true);
    if t.contents(d).contains_key(key) {
        assert(t.contents(d).dom().contains(key));
        assert(t.contents(d).dom().len() > 0) by {
            vstd::set::axiom_set_remove_len(t.contents(d).dom(), key);
        }
    }
}

/// Splitting a bucket leaves what is fetched as it was.
pub proof fn law_split_keeps_contents(t: Table, d: Disk, key: Seq<u8>)
    requires
        t.intact(d),
        key.len() == t.header.key_size,
    ensures
        ({
            let (_, t2, d2) = t.balancing(d);
            &&& t2.intact(d2)
            &&& t2.fetching(d2, key) == t.fetching(d, key)
        }),
{
    let (_, t2, d2) = t.balancing(d);
    t.lemma_balancing(d);
    lemma_fetching(t, d, key);
    lemma_fetching(t2, d2, key);
}

/// A store is opened from its files as it was left.
pub proof fn law_reopen(t: Table, d: Disk)
    requires
        t.intact(d),
    ensures
        Table::opened(d.key) == Ok::<Table, Error>(t),
{
    reveal(Table::intact);
    let encoding = t.header.encoding();
    let rest = d.key.skip(encoding.len() as int);
    crate::effects::lemma_header_block_len(t.header);
    t.lemma_level_bound();
    t.lemma_block_offset(0);
    assert(d.key =~= encoding + rest) by {
        assert forall|x: int| 0 <= x < encoding.len() implies d.key[x] == encoding[x] by {
            assert(d.key.subrange(0, t.bs())[x] == t.header.block()[x]);
        }
    }
    crate::format::law_key_header_read_back(t.header, rest);
    crate::linear::lemma_state_of(t.level, t.next, t.header.bucket_count);
}

/// Inserting only appends to the data file, whatever the files hold.
pub proof fn law_insert_appends(t: Table, d: Disk, key: Seq<u8>, value: Seq<u8>)
    requires
        key.len() == t.header.key_size,
        d.dat.len() <= u64::MAX,
    ensures
        d.dat.is_prefix_of(t.inserting(d, key, value).2.dat),
{
    t.lemma_sought_state(d, key, true);
    if let Ok(l) = t.sought(d, key, true) {
        if !l.found() {
            if let Ok(writes) = t.insertion(l, value, d.dat.len() as u64) {
                crate::effects::lemma_two_written(d, writes);
                t.lemma_insertion_len(d, l, value);
                let t1 = t.counting((t.header.key_count + 1) as u64);
                let d1 = t1.headed(crate::effects::all_written(d, writes));
                lemma_balancing_appends(t1, d1);
            }
        }
    }
}

/// Splitting a bucket only appends to the data file.
proof fn lemma_balancing_appends(t: Table, d: Disk)
    requires
        d.dat.len() <= u64::MAX,
    ensures
        d.dat.is_prefix_of(t.balancing(d).2.dat),
{
    if let Ok(split) = crate::search::sorted_out(d, t.splitting(), d.dat.len()) {
        if let Ok(writes) = t.splitted(split, d.dat.len() as u64) {
            crate::effects::lemma_three_written(d, writes);
        }
    }
}

/// The bytes of the data file that a change to the entry that a lookup has
/// stopped at may write over: its spill record, if it stands in one.
spec fn patch(t: Table, l: LookupView) -> (u64, int) {
    if l.walk.page == 0 {
        (0, 0)
    } else {
        (l.walk.page, SPILL_HEADER_SIZE + t.bs())
    }
}

/// A patched spill record leaves the rest of the data file.
proof fn lemma_patch_kept(t: Table, d: Disk, l: LookupView, changed: BucketView, dat: Seq<u8>)
    requires
        t.well_formed(d),
        crate::ops::matched(t, d, l),
        l.walk.page != 0,
        changed.fits(t.bs()),
        crate::evolve::kept(d.dat, dat, 0, 0),
    ensures
        ({
            let (a, len) = patch(t, l);
            let write = t.spilled_block(l.walk.page, changed);
            crate::evolve::kept(
                d.dat,
                crate::effects::spliced(dat, write.offset as int, write.bytes),
                a as int,
                len,
            )
        }),
{
    let i = l.walk.index as int;
    assert(t.bucket_ok(d, i));
    crate::model::lemma_pages(d.dat, t.bs(), l.walk.home.spill);
    crate::bucket::law_bucket_read_back(changed, t.bs());
}

/// A changed entry still fits in its bucket.
proof fn lemma_changed_fits(t: Table, d: Disk, l: LookupView, e: BucketEntry)
    requires
        t.well_formed(d),
        crate::ops::matched(t, d, l),
        e.fits(),
    ensures
        ({
            let bucket = l.walk.current();
            let index = l.walk.stage->At_index as int;
            &&& (BucketView { entries: bucket.entries.update(index, e), ..bucket }).fits(t.bs())
            &&& (BucketView { entries: bucket.entries.remove(index), ..bucket }).fits(t.bs())
        }),
{
    crate::ops::lemma_standing(t, d, l.walk);
    let bucket = l.walk.current();
    let index = l.walk.stage->At_index as int;
    let updated = bucket.entries.update(index, e);
    let removed = bucket.entries.remove(index);
    assert forall|k: int| 0 <= k < updated.len() implies (#[trigger] updated[k]).fits() by {
        if k != index {
            assert(updated[k] == bucket.entries[k]);
        }
    }
    assert forall|k: int| 0 <= k < removed.len() implies (#[trigger] removed[k]).fits() by {
        if k < index {
            assert(removed[k] == bucket.entries[k]);
        } else {
            assert(removed[k] == bucket.entries[k + 1]);
        }
    }
}

/// Giving a key another value writes over its spill record at most.
proof fn lemma_replacement_kept(t: Table, d: Disk, l: LookupView, value: Seq<u8>)
    requires
        t.well_formed(d),
        crate::ops::matched(t, d, l),
        l.sound(),
    ensures
        t.replacement(l, value, d.dat.len() as u64) matches Ok(writes) ==> crate::evolve::kept(
            d.dat,
            crate::effects::all_written(d, writes).dat,
            patch(t, l).0 as int,
            patch(t, l).1,
        ),
{
    broadcast use crate::codec::lemma_be_bytes_len;

    let len = d.dat.len() as u64;
    if let Ok(writes) = t.replacement(l, value, len) {
        let dat = crate::effects::spliced(d.dat, len as int, writes[0].bytes);
        assert(crate::evolve::kept(d.dat, dat, 0, 0));
        if l.walk.page == 0 {
            crate::effects::lemma_two_written(d, writes);
        } else {
            let e = t.entry_for(l, value, len);
            let bucket = l.walk.current();
            let index = l.walk.stage->At_index as int;
            let changed = BucketView { entries: bucket.entries.update(index, e), ..bucket };
            crate::effects::lemma_three_written(d, writes);
            lemma_changed_fits(t, d, l, e);
            lemma_patch_kept(t, d, l, changed, dat);
        }
    }
}

/// Removing a key writes over its spill record at most.
proof fn lemma_removal_kept(t: Table, d: Disk, l: LookupView)
    requires
        t.well_formed(d),
        crate::ops::matched(t, d, l),
    ensures
        t.removal(l) matches Ok(writes) ==> crate::evolve::kept(
            d.dat,
            crate::effects::all_written(d, writes).dat,
            patch(t, l).0 as int,
            patch(t, l).1,
        ),
{
    if let Ok(writes) = t.removal(l) {
        reveal_with_fuel(crate::effects::all_written, 2);
        assert(writes.drop_last() =~= Seq::empty());
        if l.walk.page != 0 {
            let bucket = l.walk.current();
            let index = l.walk.stage->At_index as int;
            let changed = BucketView { entries: bucket.entries.remove(index), ..bucket };
            lemma_changed_fits(t, d, l, BucketEntry { offset: 0, size: 0, hash: 0 });
            lemma_patch_kept(t, d, l, changed, d.dat);
        }
    }
}

/// A spill record of the key's bucket that holds the key's entry.
pub open spec fn holds(t: Table, d: Disk, page: u64, key: Seq<u8>) -> bool {
    &&& t.pages(d, t.index(t.hash(key))).contains(page)
    &&& crate::model::spill_page(d.dat, t.bs(), page as int) matches Some(bucket) && exists|k: int|
        0 <= k < bucket.entries.len() && t.key_of(d, #[trigger] bucket.entries[k]) == key
}

/// The data file has only grown, but for the spill record that holds the key's
/// entry, if one does.
pub open spec fn grown_but_for(t: Table, d: Disk, key: Seq<u8>, dat: Seq<u8>) -> bool {
    ||| crate::evolve::kept(d.dat, dat, 0, 0)
    ||| exists|page: u64| #[trigger]
        holds(t, d, page, key) && crate::evolve::kept(
            d.dat,
            dat,
            page as int,
            SPILL_HEADER_SIZE + t.bs(),
        )
}

/// What a lookup that has stopped may write over is the spill record that
/// holds its key's entry.
proof fn lemma_patch_holds(t: Table, d: Disk, l: LookupView, dat: Seq<u8>)
    requires
        t.well_formed(d),
        crate::ops::matched(t, d, l),
        crate::evolve::kept(d.dat, dat, patch(t, l).0 as int, patch(t, l).1),
    ensures
        grown_but_for(t, d, l.key, dat),
{
    if l.walk.page != 0 {
        let index = l.walk.stage->At_index as int;
        let bucket = crate::model::spill_page(d.dat, t.bs(), l.walk.page as int)->Some_0;
        assert(t.key_of(d, bucket.entries[index]) == l.key);
        assert(holds(t, d, l.walk.page, l.key));
    }
}

/// Every byte of the data file stays when a key is given a value or removed,
/// live or dead, but for the bytes of the spill record that holds the key's
/// entry.
pub proof fn law_bytes_stay(t: Table, d: Disk, key: Seq<u8>, value: Seq<u8>)
    requires
        t.intact(d),
        key.len() == t.header.key_size,
    ensures
        grown_but_for(t, d, key, t.upserting(d, key, value).2.dat),
        grown_but_for(t, d, key, t.removing(d, key).2.dat),
{
    assert(t.well_formed(d)) by {
        reveal(Table::intact);
    }
    t.lemma_sought(d, key, true);
    t.lemma_sought(d, key, false);
    let (_, _, d2) = t.removing(d, key);
    if t.contents(d).contains_key(key) {
        let m = t.sought(d, key, false)->Ok_0;
        lemma_removal_kept(t, d, m);
        lemma_patch_holds(t, d, m, d2.dat);
    }
    lemma_upsert_bytes_stay(t, d, key, value);
}

proof fn lemma_upsert_bytes_stay(t: Table, d: Disk, key: Seq<u8>, value: Seq<u8>)
    requires
        t.intact(d),
        t.well_formed(d),
        key.len() == t.header.key_size,
    ensures
        grown_but_for(t, d, key, t.upserting(d, key, value).2.dat),
{
    let (_, _, d1) = t.upserting(d, key, value);
    t.lemma_upserting(d, key, value);
    if crate::write::recordable(key, value, d.dat.len() as int) {
        if t.contents(d).contains_key(key) {
            t.lemma_sought(d, key, true);
            t.lemma_upsert_found(d, key, value);
            let l = t.sought(d, key, true)->Ok_0;
            lemma_replacement_kept(t, d, l, value);
            lemma_patch_holds(t, d, l, d1.dat);
        } else {
            t.lemma_inserting(d, key, value);
            law_insert_appends(t, d, key, value);
        }
    }
}

/// The record of every listed entry stays in the data file when a key is given
/// a value or removed.
pub proof fn law_records_stay(t: Table, d: Disk, key: Seq<u8>, value: Seq<u8>, e: BucketEntry)
    requires
        t.intact(d),
        key.len() == t.header.key_size,
        t.listed(d, e),
    ensures
        t.key_of(t.upserting(d, key, value).2, e) == t.key_of(d, e),
        t.value_of(t.upserting(d, key, value).2, e) == t.value_of(d, e),
        t.key_of(t.removing(d, key).2, e) == t.key_of(d, e),
        t.value_of(t.removing(d, key).2, e) == t.value_of(d, e),
{
    assert(t.well_formed(d)) by {
        reveal(Table::intact);
    }
    law_bytes_stay(t, d, key, value);
    lemma_record_stays(t, d, key, t.upserting(d, key, value).2, e);
    lemma_record_stays(t, d, key, t.removing(d, key).2, e);
}

proof fn lemma_record_stays(t: Table, d: Disk, key: Seq<u8>, d2: Disk, e: BucketEntry)
    requires
        t.well_formed(d),
        grown_but_for(t, d, key, d2.dat),
        t.listed(d, e),
    ensures
        t.key_of(d2, e) == t.key_of(d, e),
        t.value_of(d2, e) == t.value_of(d, e),
{
    if crate::evolve::kept(d.dat, d2.dat, 0, 0) {
        crate::evolve::lemma_listed_spared(t, d, d2, 0, 0, e);
    } else {
        let wide = SPILL_HEADER_SIZE + t.bs();
        let page = choose|page: u64| #[trigger]
            holds(t, d, page, key) && crate::evolve::kept(d.dat, d2.dat, page as int, wide);
        t.lemma_level_bound();
        crate::linear::law_index_in_range(
            t.level,
            t.next,
            t.header.bucket_count,
            t.hash(key),
        );
        assert(crate::evolve::spared(t, d, page, wide));
        crate::evolve::lemma_listed_spared(t, d, d2, page, wide, e);
    }
}

/// The key files are the same, and the data files hold the same keys and spill
/// records at the same places. The values may differ, or be cut off.
pub open spec fn alike(t: Table, d: Disk, d2: Disk) -> bool {
    &&& d2.key == d.key
    &&& forall|e: BucketEntry| #[trigger]
        t.listed(d, e) ==> agree(d.dat, d2.dat, e.offset as int, 6 + t.ks())
    &&& forall|i: int, page: u64|
        0 <= i < t.header.bucket_count && #[trigger] t.pages(d, i).contains(page) ==> agree(
            d.dat,
            d2.dat,
            page as int,
            SPILL_HEADER_SIZE + t.bs(),
        )
}

/// Two files hold the same bytes from `at` on, `len` of them.
pub open spec fn agree(dat: Seq<u8>, dat2: Seq<u8>, at: int, len: int) -> bool {
    &&& at + len <= dat.len()
    &&& at + len <= dat2.len()
    &&& dat2.subrange(at, at + len) == dat.subrange(at, at + len)
}

/// A lookup that reads no values reads the same in files that are alike.
proof fn lemma_alike_answer(t: Table, d: Disk, d2: Disk, l: LookupView)
    requires
        t.well_formed(d),
        alike(t, d, d2),
        crate::progress::searching(t, d, l),
        !l.walk.values,
        l.walk.wanted() is Some,
    ensures
        crate::progress::available(d2, l.walk.wanted()->Some_0),
        crate::progress::answer(d2, l.walk.wanted()->Some_0) == crate::progress::answer(
            d,
            l.walk.wanted()->Some_0,
        ),
{
    let w = l.walk;
    let i = w.index as int;
    let request = w.wanted()->Some_0;
    crate::progress::lemma_lookup_step(t, d, l);
    match w.stage {
        Stage::Size { index } => {
            crate::progress::lemma_entry_here(t, d, w, index as int);
            lemma_agree_within(t, d, d2, w.current().entries[index as int], i, request);
        },
        Stage::Body { index, .. } => {
            crate::progress::lemma_entry_here(t, d, w, index as int);
            lemma_agree_within(t, d, d2, w.current().entries[index as int], i, request);
        },
        Stage::SpillSize { offset } => {
            lemma_next_agrees(t, d, d2, w);
            assert(agree_at(d, d2, offset as int, SPILL_HEADER_SIZE + t.bs(), request));
        },
        Stage::SpillBody { offset, .. } => {
            lemma_next_agrees(t, d, d2, w);
            assert(agree_at(d, d2, offset as int, SPILL_HEADER_SIZE + t.bs(), request));
        },
        _ => {},
    }
}

/// A request inside bytes that agree has the same answer.
spec fn agree_at(d: Disk, d2: Disk, at: int, len: int, request: Request) -> bool {
    &&& agree(d.dat, d2.dat, at, len)
    &&& at <= request.offset
    &&& request.offset + request.len <= at + len
    &&& crate::progress::answer(d2, request) =~= d2.dat.subrange(at, at + len).subrange(
        request.offset - at,
        request.offset + request.len - at,
    )
    &&& crate::progress::answer(d, request) =~= d.dat.subrange(at, at + len).subrange(
        request.offset - at,
        request.offset + request.len - at,
    )
}

/// A request for the size or the key of an entry's record.
proof fn lemma_agree_within(
    t: Table,
    d: Disk,
    d2: Disk,
    e: BucketEntry,
    i: int,
    request: Request,
)
    requires
        alike(t, d, d2),
        0 <= i < t.header.bucket_count,
        t.entries(d, i).contains(e),
        request.file == FileKind::Dat,
        e.offset <= request.offset,
        request.offset + request.len <= e.offset + 6 + t.ks(),
    ensures
        agree_at(d, d2, e.offset as int, 6 + t.ks(), request),
{
    assert(t.listed(d, e));
}

/// The spill record that a walk goes on to agrees.
proof fn lemma_next_agrees(t: Table, d: Disk, d2: Disk, w: WalkView)
    requires
        t.well_formed(d),
        alike(t, d, d2),
        crate::ops::standing(t, d, w),
        w.current().spill != 0,
    ensures
        agree(d.dat, d2.dat, w.current().spill as int, SPILL_HEADER_SIZE + t.bs()),
{
    let i = w.index as int;
    assert(t.bucket_ok(d, i));
    if w.page == 0 {
        crate::model::lemma_pages(d.dat, t.bs(), w.home.spill);
    } else {
        crate::progress::lemma_next_page(d.dat, t.bs(), w.home.spill, w.page);
    }
    assert(t.pages(d, i).contains(w.current().spill));
}

proof fn lemma_alike_searched(
    t: Table,
    d: Disk,
    d2: Disk,
    l: LookupView,
    pages: nat,
    pages2: nat,
)
    requires
        t.well_formed(d),
        alike(t, d, d2),
        crate::progress::searching(t, d, l),
        !l.walk.values,
        crate::progress::pages_left(t, d, l.walk) <= crate::search::budget(l.walk, pages),
        crate::progress::pages_left(t, d, l.walk) <= crate::search::budget(l.walk, pages2),
    ensures
        crate::search::searched(d2, l, pages2) == crate::search::searched(d, l, pages),
    decreases
            crate::search::budget(l.walk, pages),
            crate::progress::entries_left(l.walk),
            crate::progress::reads_left(l.walk),
{
    if l.walk.wanted() is Some {
        let bytes = crate::progress::answer(d, l.walk.wanted()->Some_0);
        lemma_alike_answer(t, d, d2, l);
        crate::progress::lemma_lookup_step(t, d, l);
        crate::search::lemma_lookup_moves(l, bytes, pages);
        lemma_alike_searched(
            t,
            d,
            d2,
            l.given(bytes)->Ok_0,
            crate::search::pages_after(l.walk, pages),
            crate::search::pages_after(l.walk, pages2),
        );
    }
}

/// Checking for a key reads no value: what it returns is the same where the
/// values have been changed or cut off.
pub proof fn law_no_value_read(t: Table, d: Disk, d2: Disk, key: Seq<u8>)
    requires
        t.intact(d),
        key.len() == t.header.key_size,
        alike(t, d, d2),
    ensures
        t.finding(d2, key) == Ok::<bool, Error>(t.contents(d).contains_key(key)),
{
    assert(t.well_formed(d)) by {
        reveal(Table::intact);
    }
    let l = t.looking(key, t.hash(key), false);
    let i = l.walk.index as int;
    t.lemma_sought(d, key, false);
    t.lemma_regular(t.hash(key));
    t.lemma_looking_sound(key, t.hash(key), false);
    crate::progress::lemma_lookup_start(t, d, key, false);
    assert(t.bucket_ok(d, i));
    let spill = t.home(d, i)->Some_0.spill;
    crate::search::lemma_pages_bound(d.dat, t.bs(), spill);
    if spill != 0 {
        crate::model::lemma_pages(d.dat, t.bs(), spill);
        assert(t.pages(d, i).contains(spill));
    }
    lemma_alike_searched(t, d, d2, l, d.dat.len(), d2.dat.len());
}

/// There is room for one more value: the data file can take its record and a
/// spill record for each key, and the key file one more bucket.
pub open spec fn roomy(t: Table, d: Disk, value: Seq<u8>) -> bool {
    &&& d.dat.len() + 6 + t.header.key_size + value.len() + (t.header.key_count + 2) * (8
        + t.header.block_size) <= 0x1_0000_0000_0000
    &&& (t.header.bucket_count + 2) * t.header.block_size <= 0x7fff_ffff_ffff_ffff
}

/// Where there is room, a key that is not stored is inserted, and upserting
/// always succeeds.
pub proof fn law_room_enough(t: Table, d: Disk, key: Seq<u8>, value: Seq<u8>)
    requires
        t.intact(d),
        key.len() == t.header.key_size,
        roomy(t, d, value),
    ensures
        t.inserting(d, key, value).0 == Ok::<bool, Error>(!t.contents(d).contains_key(key)),
        t.upserting(d, key, value).0 == Ok::<(), Error>(()),
{
    let count = t.header.key_count as int;
    let size = 8 + t.header.block_size;
    assert((count + 2) * size >= 0) by (nonlinear_arith)
        requires
            count >= 0,
            size >= 0,
    ;
    t.lemma_inserting(d, key, value);
    t.lemma_upserting(d, key, value);
    if !t.contents(d).contains_key(key) {
        lemma_no_data_shortage(t, d, key, value);
    }
}

/// Where the data file has room, it is not why a key cannot be stored.
pub proof fn lemma_no_data_shortage(t: Table, d: Disk, key: Seq<u8>, value: Seq<u8>)
    requires
        t.intact(d),
        key.len() == t.header.key_size,
        !t.contents(d).contains_key(key),
        d.dat.len() + 6 + t.header.key_size + value.len() + (t.header.key_count + 2) * (8
            + t.header.block_size) <= 0x1_0000_0000_0000,
    ensures
        t.storing(d, key, value) is Ok,
        ({
            let (t1, d1) = t.stored(d, key, value);
            t1.split_error(d1) != Some(Error::DataFileFull)
        }),
{
    broadcast use crate::codec::lemma_be_bytes_len;

    let size = crate::write::spill_size(t.header);
    let count = t.header.key_count as int;
    assert((count + 2) * size >= size) by (nonlinear_arith)
        requires
            count >= 0,
            size >= 0,
    ;
    t.lemma_key_count_bound(d);
    assert(t.well_formed(d)) by {
        reveal(Table::intact);
    }
    t.lemma_sought(d, key, true);
    t.lemma_stored(d, t.sought(d, key, true)->Ok_0, value);
    assert(t.storing(d, key, value) is Ok);
    let (t1, d1) = t.stored(d, key, value);
    crate::ops::lemma_inserted(t, d, t.sought(d, key, true)->Ok_0, value, t1, d1);
    assert(d1.dat.len() <= d.dat.len() + t.record_size(value) + size);
    if t1.overloaded() {
        lemma_split_spill_bound(t1, d1);
        let taken = t1.split_spills(t1.split_of(d1));
        assert((count + 2) * size == (count + 1) * size + size) by (nonlinear_arith);
        assert((taken - 1) * size == taken * size - size) by (nonlinear_arith);
    }
}

/// A split takes no more spill records than there are keys.
proof fn lemma_split_spill_bound(t: Table, d: Disk)
    requires
        t.intact(d),
    ensures
        t.split_spill(t.split_of(d)) <= t.header.key_count * crate::write::spill_size(t.header),
{
    assert(t.well_formed(d)) by {
        reveal(Table::intact);
    }
    let s = t.entries(d, t.next as int);
    let sp = t.split_of(d);
    let size = crate::write::spill_size(t.header);
    let kept = crate::write::spills(t.header, sp.keep.len() as int);
    let gone = crate::write::spills(t.header, sp.moved.len() as int);
    t.lemma_level_bound();
    vstd::arithmetic::power2::lemma_pow2_pos(t.level as nat);
    lemma_bucket_bound(t, d, t.next as int);
    lemma_filters(s, crate::ops::staying(t, d), crate::ops::leaving(t, d));
    lemma_spills_bound(t, sp.keep.len() as int);
    lemma_spills_bound(t, sp.moved.len() as int);
    assert((kept + gone) * size <= t.header.key_count * size) by (nonlinear_arith)
        requires
            kept + gone <= t.header.key_count,
            size >= 0,
    ;
}

proof fn lemma_spills_bound(t: Table, count: int)
    requires
        count >= 0,
        t.header.capacity() >= 1,
    ensures
        crate::write::spills(t.header, count) <= count,
{
    if count > 0 {
        let capacity = t.header.capacity();
        assert((count - 1) / capacity <= count) by (nonlinear_arith)
            requires
                count > 0,
                capacity >= 1,
        ;
    }
}

/// Two filters that part a sequence.
pub proof fn lemma_filters(
    s: Seq<BucketEntry>,
    p: spec_fn(BucketEntry) -> bool,
    q: spec_fn(BucketEntry) -> bool,
)
    requires
        forall|e: BucketEntry| #[trigger] p(e) <==> !#[trigger] q(e),
    ensures
        s.filter(p).len() + s.filter(q).len() == s.len(),
    decreases s.len(),
{
    reveal(Seq::filter);
    if s.len() > 0 {
        lemma_filters(s.drop_last(), p, q);
        assert(p(s.last()) <==> !q(s.last()));
    }
}

/// A bucket lists no more entries than there are keys.
proof fn lemma_bucket_bound(t: Table, d: Disk, i: int)
    requires
        t.intact(d),
        0 <= i < t.header.bucket_count,
    ensures
        t.entries(d, i).len() <= t.header.key_count,
{
    reveal(Table::intact);
    assert(t.bucket_ok(d, i));
    let s = t.entries(d, i);
    let keys = Seq::new(s.len(), |k: int| t.key_of(d, s[k]));
    assert(keys.no_duplicates());
    assert forall|key: Seq<u8>| keys.to_set().contains(key) implies t.contents(d).dom().contains(
        key,
    ) by {
        let k = choose|k: int| 0 <= k < keys.len() && keys[k] == key;
        assert(s.contains(s[k]));
        assert(t.listed(d, s[k]));
        t.lemma_listed_stored(d, s[k]);
    }
    keys.unique_seq_to_set();
    vstd::set_lib::lemma_len_subset(keys.to_set(), t.contents(d).dom());
}

/// In intact files, what is fetched is what is stored.
proof fn lemma_fetching(t: Table, d: Disk, key: Seq<u8>)
    requires
        t.intact(d),
        key.len() == t.header.key_size,
    ensures
        t.fetching(d, key) == if t.contents(d).contains_key(key) {
            Ok::<Option<Seq<u8>>, Error>(Some(t.contents(d)[key]))
        } else {
            Ok(None)
        },
{
    reveal(Table::intact);
    t.lemma_sought(d, key, true);
}

} // verus!

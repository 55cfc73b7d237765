//! The operations on well formed files: each leaves them well formed and
//! changes what they store as it should.

use crate::bucket::{BucketEntry, BucketView};
use crate::format::{DAT_HEADER_SIZE, LIMIT48, MAX_DAT_SIZE, SPILL_HEADER_SIZE};
use crate::lookup::LookupView;
use crate::model::Disk;
use crate::split::SplitView;
use crate::table::Table;
use crate::walk::{Stage, WalkView};
use vstd::prelude::*;

verus! {

/// The walk is in the chain of its bucket.
pub open spec fn standing(t: Table, d: Disk, w: WalkView) -> bool {
    &&& w.key_size == t.header.key_size
    &&& w.block_size == t.header.block_size
    &&& w.index < t.header.bucket_count
    &&& t.home(d, w.index as int) == Some(w.home)
    &&& w.page == 0 || {
        &&& t.pages(d, w.index as int).contains(w.page)
        &&& crate::model::spill_page(d.dat, t.bs(), w.page as int) == Some(w.spilled)
    }
}

/// The entries of the chain before those of the bucket that the walk is in.
pub open spec fn behind(t: Table, d: Disk, w: WalkView) -> Seq<BucketEntry> {
    if w.page == 0 {
        Seq::empty()
    } else {
        w.home.entries + crate::chain::before(d.dat, t.bs(), w.home.spill, w.page)
    }
}

/// The entries of the chain after those of the bucket that the walk is in.
pub open spec fn ahead(t: Table, d: Disk, w: WalkView) -> Seq<BucketEntry> {
    crate::model::chained(d.dat, t.bs(), w.current().spill)
}

/// The first bucket of the chain once the one that the walk is in has become
/// `changed`.
pub open spec fn first_after(w: WalkView, changed: BucketView) -> BucketView {
    if w.page == 0 {
        changed
    } else {
        w.home
    }
}

pub proof fn lemma_standing(t: Table, d: Disk, w: WalkView)
    requires
        t.well_formed(d),
        standing(t, d, w),
    ensures
        t.entries(d, w.index as int) == behind(t, d, w) + w.current().entries + ahead(t, d, w),
        crate::model::linked(d.dat, t.bs(), w.current().spill),
        w.home.fits(t.bs()),
        w.current().fits(t.bs()),
        w.page < LIMIT48,
{
    let i = w.index as int;
    assert(t.bucket_ok(d, i));
    t.lemma_block_offset(i);
    crate::bucket::lemma_decoded_bucket_fits(t.block_of(d, i));
    if w.page == 0 {
        assert(t.entries(d, i) =~= behind(t, d, w) + w.current().entries + ahead(t, d, w));
    } else {
        crate::chain::lemma_before(d.dat, t.bs(), w.home.spill, w.page);
        crate::model::lemma_pages(d.dat, t.bs(), w.home.spill);
        let at = w.page + SPILL_HEADER_SIZE;
        crate::bucket::lemma_decoded_bucket_fits(d.dat.subrange(at, at + t.bs()));
        assert(t.entries(d, i) =~= behind(t, d, w) + w.current().entries + ahead(t, d, w));
    }
}

/// Writing another bucket over the one that the walk is in changes the chain
/// in its place.
pub proof fn lemma_current_changed(t: Table, d: Disk, w: WalkView, changed: BucketView, dat2: Seq<u8>)
    requires
        t.well_formed(d),
        standing(t, d, w),
        changed.spill == w.current().spill,
        w.page == 0 ==> crate::evolve::kept(d.dat, dat2, 0, 0),
        w.page != 0 ==> crate::evolve::kept(d.dat, dat2, w.page as int, SPILL_HEADER_SIZE + t.bs())
            && crate::model::spill_page(dat2, t.bs(), w.page as int) == Some(changed),
    ensures
        ({
            let home2 = first_after(w, changed);
            &&& crate::model::linked(dat2, t.bs(), home2.spill)
            &&& crate::model::pages(dat2, t.bs(), home2.spill) == t.pages(d, w.index as int)
            &&& crate::chain::whole(dat2, t.bs(), home2) == behind(t, d, w) + changed.entries
                + ahead(t, d, w)
        }),
{
    lemma_standing(t, d, w);
    assert(t.bucket_ok(d, w.index as int));
    if w.page == 0 {
        crate::chain::lemma_chain_grown(d.dat, dat2, t.bs(), changed.spill);
        assert(crate::chain::whole(dat2, t.bs(), changed) =~= behind(t, d, w) + changed.entries
            + ahead(t, d, w));
    } else {
        crate::chain::lemma_chain_patched(d.dat, dat2, t.bs(), w.home.spill, w.page, changed);
        assert(crate::chain::whole(dat2, t.bs(), w.home) =~= behind(t, d, w) + changed.entries
            + ahead(t, d, w));
    }
}

/// The lookup is for its key, in the bucket of the key.
pub open spec fn seeking(t: Table, l: LookupView) -> bool {
    &&& l.key.len() == t.ks()
    &&& l.walk.index == t.index(t.hash(l.key))
    &&& l.walk.filter == Some(crate::hash::upper48(t.hash(l.key)))
}

/// A data record is read back as it was written.
pub proof fn lemma_record_read_back(dat: Seq<u8>, at: int, key: Seq<u8>, value: Seq<u8>)
    requires
        DAT_HEADER_SIZE <= at,
        key.len() + value.len() < LIMIT48,
        at + 6 + key.len() + value.len() <= dat.len(),
        dat.subrange(at, at + 6 + key.len() + value.len()) == crate::write::data_record(key, value),
    ensures
        crate::model::record_ok(dat, key.len() as int, at),
        crate::model::record_total(dat, at) == key.len() + value.len(),
        crate::model::record_key(dat, key.len() as int, at) == key,
        crate::model::record_value(dat, key.len() as int, at) == value,
{
    broadcast use crate::codec::lemma_be_bytes_len;

    let total = key.len() + value.len();
    let own = dat.subrange(at, at + 6 + total);
    crate::codec::lemma_radix_values();
    crate::codec::law_integer_read_back(total, 6);
    assert(dat.subrange(at, at + 6) =~= own.subrange(0, 6));
    assert(own.subrange(0, 6) =~= crate::codec::be_bytes(total, 6));
    assert(crate::model::record_key(dat, key.len() as int, at) =~= own.subrange(
        6,
        6 + key.len() as int,
    ));
    assert(own.subrange(6, 6 + key.len() as int) =~= key);
    assert(crate::model::record_value(dat, key.len() as int, at) =~= own.subrange(
        6 + key.len() as int,
        6 + total as int,
    ));
    assert(own.subrange(6 + key.len() as int, 6 + total as int) =~= value);
}

/// The files after one bucket has been written anew, with what has changed in
/// the data file.
pub open spec fn one_rebuilt(
    t: Table,
    d: Disk,
    t2: Table,
    d2: Disk,
    i: int,
    a: u64,
    len: int,
    home2: BucketView,
    fresh: Option<BucketEntry>,
) -> bool {
    let bs = t.bs();
    let n = t.header.bucket_count as int;
    &&& 0 <= i < n
    &&& t2 == t.counting(t2.header.key_count)
    &&& d2.key.len() == d.key.len()
    &&& d2.key.subrange(0, bs) == t2.header.block()
    &&& forall|j: int|
        0 <= j < n && j != i ==> #[trigger] crate::effects::block_at(d2.key, bs, j)
            == crate::effects::block_at(d.key, bs, j)
    &&& BucketView::decoding(crate::effects::block_at(d2.key, bs, i)) == Some(home2)
    &&& crate::evolve::kept(d.dat, d2.dat, a as int, len)
    &&& len == 0 || len == SPILL_HEADER_SIZE + bs && t.pages(d, i).contains(a)
    &&& d2.dat.len() <= MAX_DAT_SIZE
    &&& crate::model::linked(d2.dat, bs, home2.spill)
    &&& crate::model::distinct(d2.dat, t.ks(), crate::chain::whole(d2.dat, bs, home2))
    &&& forall|p: u64| #[trigger]
        crate::model::pages(d2.dat, bs, home2.spill).contains(p) ==> t.pages(d, i).contains(p) || p
            >= d.dat.len()
    &&& forall|x: BucketEntry| #[trigger]
        crate::chain::whole(d2.dat, bs, home2).contains(x) ==> t.entries(d, i).contains(x) || fresh
            == Some(x)
    &&& fresh matches Some(e) ==> {
        &&& e.offset >= d.dat.len()
        &&& t2.entry_ok(d2, i, e)
        &&& forall|p: u64| #[trigger]
            crate::model::pages(d2.dat, bs, home2.spill).contains(p) && p >= d.dat.len()
                ==> t.clear(d2, p, e)
    }
}

pub proof fn lemma_one_rebuilt(
    t: Table,
    d: Disk,
    t2: Table,
    d2: Disk,
    i: int,
    a: u64,
    len: int,
    home2: BucketView,
    fresh: Option<BucketEntry>,
)
    requires
        t.well_formed(d),
        one_rebuilt(t, d, t2, d2, i, a, len, home2, fresh),
    ensures
        crate::evolve::rebuilt(t, d, t2, d2, set![i], a, len),
        t2.home(d2, i) == Some(home2),
        t2.entries(d2, i) == crate::chain::whole(d2.dat, t.bs(), home2),
{
    reveal(crate::evolve::rebuilt);
    let bs = t.bs();
    let n = t.header.bucket_count as int;
    let touched = set![i];
    assert(t2.block_of(d2, i) == crate::effects::block_at(d2.key, bs, i));
    assert forall|j: int| 0 <= j < n && !#[trigger] touched.contains(j) implies t.block_of(d2, j)
        == t.block_of(d, j) by {
        assert(crate::effects::block_at(d2.key, bs, j) == crate::effects::block_at(d.key, bs, j));
    }
    assert(t.bucket_ok(d, i));
    assert forall|x: BucketEntry| #[trigger] t.entries(d, i).contains(x) implies {
        &&& crate::evolve::inherited(t, d, t2, i, x)
        &&& x.offset < d.dat.len()
    } by {
        assert(t.listed(d, x));
        assert(t.entry_ok(d, i, x));
    }
    if len != 0 {
        assert(touched.contains(i) && t.pages(d, i).contains(a));
    }
    assert forall|j: int, e: BucketEntry|
        0 <= j < n && touched.contains(j) && #[trigger] t2.entries(d2, j).contains(
            e,
        ) implies crate::evolve::inherited(t, d, t2, j, e) || crate::evolve::appended(
        d,
        t2,
        d2,
        j,
        e,
    ) by {
        assert(j == i);
    }
    assert forall|k: int, j: int, p: u64, e: BucketEntry|
        0 <= k < n && 0 <= j < n && touched.contains(k) && touched.contains(j)
            && #[trigger] t2.pages(d2, k).contains(p) && #[trigger] t2.entries(d2, j).contains(e)
            && p >= d.dat.len() && e.offset >= d.dat.len() implies t.clear(d2, p, e) by {
        assert(k == i && j == i);
    }
}

/// What the files list after one bucket has been written anew.
pub proof fn lemma_one_listed(
    t: Table,
    d: Disk,
    t2: Table,
    d2: Disk,
    i: int,
    a: u64,
    len: int,
    dropped: Option<BucketEntry>,
    added: Option<BucketEntry>,
)
    requires
        t.well_formed(d),
        0 <= i < t.header.bucket_count,
        t2.header.bucket_count == t.header.bucket_count,
        crate::evolve::rebuilt(t, d, t2, d2, set![i], a, len),
        forall|x: BucketEntry| #[trigger]
            t2.entries(d2, i).contains(x) <==> t.entries(d, i).contains(x) && dropped != Some(x)
                || added == Some(x),
        dropped matches Some(x) ==> t.entries(d, i).contains(x),
    ensures
        forall|x: BucketEntry| #[trigger]
            t2.listed(d2, x) <==> t.listed(d, x) && dropped != Some(x) || added == Some(x),
{
    let n = t.header.bucket_count as int;
    let touched = set![i];
    assert forall|x: BucketEntry| #[trigger]
        t2.listed(d2, x) <==> t.listed(d, x) && dropped != Some(x) || added == Some(x) by {
        crate::evolve::lemma_rebuilt_lists(t, d, t2, d2, touched, a, len, x);
        if added == Some(x) {
            assert(t2.entries(d2, i).contains(x));
        }
        if t.listed(d, x) {
            let j = choose|j: int| 0 <= j < n && #[trigger] t.entries(d, j).contains(x);
            if j == i {
                assert(dropped != Some(x) ==> t2.entries(d2, i).contains(x));
            }
        }
        if exists|j: int|
            0 <= j < n && !touched.contains(j) && #[trigger] t.entries(d, j).contains(x) {
            let j = choose|j: int|
                0 <= j < n && !touched.contains(j) && #[trigger] t.entries(d, j).contains(x);
            assert(t.bucket_ok(d, j) && t.bucket_ok(d, i));
            assert(t.entry_ok(d, j, x));
            if dropped == Some(x) {
                assert(t.entry_ok(d, i, x));
            }
        }
    }
}

/// The key file after a bucket's block and the header have been written.
pub proof fn lemma_key_file(t: Table, d: Disk, t2: Table, i: int, bucket: BucketView)
    requires
        t.well_formed(d),
        0 <= i < t.header.bucket_count,
        t2 == t.counting(t2.header.key_count),
        bucket.fits(t.bs()),
    ensures
        ({
            let bs = t.bs();
            let key1 = crate::effects::spliced(d.key, (i + 1) * bs, bucket.encoding(bs));
            let key2 = crate::effects::spliced(key1, 0, t2.header.block());
            &&& t.block(i as u64, bucket).offset == (i + 1) * bs
            &&& t2.block(i as u64, bucket) == t.block(i as u64, bucket)
            &&& key1.len() == d.key.len()
            &&& key2.len() == d.key.len()
            &&& key1.subrange(0, bs) == t.header.block()
            &&& key2.subrange(0, bs) == t2.header.block()
            &&& BucketView::decoding(crate::effects::block_at(key1, bs, i)) == Some(bucket)
            &&& BucketView::decoding(crate::effects::block_at(key2, bs, i)) == Some(bucket)
            &&& forall|j: int|
                0 <= j < t.header.bucket_count && j != i ==> #[trigger] crate::effects::block_at(
                    key1,
                    bs,
                    j,
                ) == crate::effects::block_at(d.key, bs, j)
            &&& forall|j: int|
                0 <= j < t.header.bucket_count && j != i ==> #[trigger] crate::effects::block_at(
                    key2,
                    bs,
                    j,
                ) == crate::effects::block_at(d.key, bs, j)
        }),
{
    let n = t.header.bucket_count as int;
    let bs = t.bs();
    t.lemma_level_bound();
    t.lemma_block_offset(i);
    crate::bucket::law_bucket_read_back(bucket, bs);
    let key1 = crate::effects::spliced(d.key, (i + 1) * bs, bucket.encoding(bs));
    let key2 = crate::effects::spliced(key1, 0, t2.header.block());
    crate::effects::lemma_block_spliced(d.key, bs, n, i, bucket.encoding(bs));
    crate::effects::lemma_header_block_len(t2.header);
    crate::effects::lemma_header_spliced(key1, bs, n, t2.header.block());
    assert forall|j: int| 0 <= j < n && j != i implies #[trigger] crate::effects::block_at(
        key2,
        bs,
        j,
    ) == crate::effects::block_at(d.key, bs, j) by {
        assert(crate::effects::block_at(key1, bs, j) == crate::effects::block_at(d.key, bs, j));
    }
}

/// The data file and the bucket after a key's record has been appended and its
/// entry placed.
proof fn lemma_insertion_chain(t: Table, d: Disk, l: LookupView, value: Seq<u8>, d2: Disk) -> (at: int)
    requires
        t.well_formed(d),
        standing(t, d, l.walk),
        seeking(t, l),
        !t.contents(d).contains_key(l.key),
        t.insertion(l, value, d.dat.len() as u64) is Ok,
        d2.dat == ({
            let record = crate::write::data_record(l.key, value);
            let e = t.entry_for(l, value, d.dat.len() as u64);
            d.dat + record + crate::write::placed(
                t.header,
                l.walk.home,
                e,
                (d.dat + record).len() as int,
            ).1
        }),
    ensures
        ({
            let bs = t.bs();
            let record = crate::write::data_record(l.key, value);
            let e = t.entry_for(l, value, d.dat.len() as u64);
            let end = (d.dat + record).len() as int;
            let (home2, tail) = crate::write::placed(t.header, l.walk.home, e, end);
            let s = t.entries(d, l.walk.index as int);
            &&& record.len() == 6 + l.key.len() + value.len()
            &&& tail.len() == if l.walk.home.entries.len() >= t.header.capacity() {
                crate::write::spill_size(t.header)
            } else {
                0
            }
            &&& home2.fits(bs)
            &&& crate::model::linked(d2.dat, bs, home2.spill)
            &&& 0 <= at <= s.len()
            &&& crate::chain::whole(d2.dat, bs, home2) == s.insert(at, e)
            &&& forall|p: u64| #[trigger]
                crate::model::pages(d2.dat, bs, home2.spill).contains(p) ==> t.pages(
                    d,
                    l.walk.index as int,
                ).contains(p) || p == end
            &&& e.offset == d.dat.len()
            &&& t.entry_ok(d2, l.walk.index as int, e)
            &&& t.key_of(d2, e) == l.key
            &&& t.value_of(d2, e) == value
            &&& crate::model::record_end(d2.dat, e.offset as int) == end
            &&& crate::model::distinct(d2.dat, t.ks(), s.insert(at, e))
            &&& crate::evolve::kept(d.dat, d2.dat, 0, 0)
            &&& d2.dat.len() <= MAX_DAT_SIZE
        }),
{
    broadcast use crate::codec::lemma_be_bytes_len;

    let i = l.walk.index as int;
    let bs = t.bs();
    let home = l.walk.home;
    let len = d.dat.len() as u64;
    let record = crate::write::data_record(l.key, value);
    let e = t.entry_for(l, value, len);
    let dat1 = d.dat + record;
    let (home2, tail) = crate::write::placed(t.header, home, e, dat1.len() as int);
    lemma_standing(t, d, l.walk);
    assert(t.bucket_ok(d, i));
    crate::chain::lemma_chain_grown(d.dat, dat1, bs, home.spill);
    crate::bucket::law_bucket_read_back(home, bs);
    let at = crate::chain::lemma_placed(t.header, dat1, home, e);
    assert(d2.dat.subrange(len as int, len + record.len()) =~= record);
    lemma_record_read_back(d2.dat, len as int, l.key, value);
    let s = t.entries(d, i);
    assert forall|x: BucketEntry| #[trigger] s.contains(x) implies t.key_of(d2, x) != l.key by {
        assert(t.listed(d, x));
        crate::evolve::lemma_listed_spared(t, d, d2, 0, 0, x);
        t.lemma_listed_stored(d, x);
    }
    crate::evolve::lemma_distinct_spared(t, d, d2, 0, 0, i);
    crate::chain::lemma_insert_distinct(d2.dat, t.ks(), s, at, e);
    at
}

/// Storing a key that was not stored.
pub proof fn lemma_inserted(t: Table, d: Disk, l: LookupView, value: Seq<u8>, t2: Table, d2: Disk)
    requires
        t.well_formed(d),
        standing(t, d, l.walk),
        seeking(t, l),
        !t.contents(d).contains_key(l.key),
        t.insertion(l, value, d.dat.len() as u64) is Ok,
        t2 == t.counting(t2.header.key_count),
        d2 == crate::effects::written(
            crate::effects::all_written(d, t.insertion(l, value, d.dat.len() as u64)->Ok_0),
            t2.header_block(),
        ),
    ensures
        t2.well_formed(d2),
        t2.contents(d2) == t.contents(d).insert(l.key, value),
        d2.dat.len() == d.dat.len() + 6 + l.key.len() + value.len() + if l.walk.home.entries.len()
            >= t.header.capacity() {
            crate::write::spill_size(t.header)
        } else {
            0
        },
{
    let i = l.walk.index as int;
    let bs = t.bs();
    let len = d.dat.len() as u64;
    let writes = t.insertion(l, value, len)->Ok_0;
    let record = crate::write::data_record(l.key, value);
    let e = t.entry_for(l, value, len);
    let end = (d.dat + record).len() as int;
    let (home2, tail) = crate::write::placed(t.header, l.walk.home, e, end);
    crate::effects::lemma_two_written(d, writes);
    assert(d2.dat =~= d.dat + record + tail);
    let at = lemma_insertion_chain(t, d, l, value, d2);
    lemma_key_file(t, d, t2, i, home2);
    let s = t.entries(d, i);
    assert forall|x: BucketEntry| #[trigger]
        crate::chain::whole(d2.dat, bs, home2).contains(x) <==> s.contains(x) || x == e by {
        crate::chain::lemma_insert_lists(s, at, e, x);
    }
    assert(t2.entry_ok(d2, i, e) == t.entry_ok(d2, i, e));
    assert forall|p: u64| #[trigger]
        crate::model::pages(d2.dat, bs, home2.spill).contains(p) && p
            >= d.dat.len() implies t.clear(d2, p, e) by {
        if t.pages(d, i).contains(p) {
            crate::evolve::lemma_page_inside(t, d, i, p);
        }
    }
    assert(one_rebuilt(t, d, t2, d2, i, 0, 0, home2, Some(e)));
    lemma_one_rebuilt(t, d, t2, d2, i, 0, 0, home2, Some(e));
    crate::evolve::lemma_rebuilt(t, d, t2, d2, set![i], 0, 0);
    lemma_one_listed(t, d, t2, d2, i, 0, 0, None, Some(e));
    crate::effects::lemma_contents_changed(
        t,
        d,
        t2,
        d2,
        set![i],
        0,
        0,
        l.key,
        None,
        Some(e),
    );
}

/// The lookup has stopped at the entry of its key.
pub open spec fn matched(t: Table, d: Disk, l: LookupView) -> bool {
    &&& standing(t, d, l.walk)
    &&& seeking(t, l)
    &&& l.walk.stage matches Stage::At { index }
    &&& index < l.walk.current().entries.len()
    &&& t.key_of(d, l.walk.current().entries[index as int]) == l.key
}

/// Where the entry that the lookup has stopped at stands in its chain.
pub open spec fn place_of(t: Table, d: Disk, l: LookupView) -> int {
    behind(t, d, l.walk).len() + l.walk.stage->At_index as int
}

/// The bucket that the walk is in, written over, is read back.
proof fn lemma_patched_page(t: Table, d: Disk, w: WalkView, changed: BucketView, dat1: Seq<u8>)
    requires
        t.well_formed(d),
        standing(t, d, w),
        w.page != 0,
        changed.fits(t.bs()),
        crate::evolve::kept(d.dat, dat1, 0, 0),
    ensures
        ({
            let bs = t.bs();
            let dat2 = crate::effects::spliced(
                dat1,
                w.page + SPILL_HEADER_SIZE,
                changed.encoding(bs),
            );
            &&& crate::evolve::kept(d.dat, dat2, w.page as int, SPILL_HEADER_SIZE + bs)
            &&& crate::model::spill_page(dat2, bs, w.page as int) == Some(changed)
            &&& dat2.len() == dat1.len()
            &&& forall|x: int|
                d.dat.len() <= x < dat1.len() ==> #[trigger] dat2[x] == dat1[x]
        }),
{
    let bs = t.bs();
    let at = w.page as int;
    let block = changed.encoding(bs);
    let dat2 = crate::effects::spliced(dat1, at + SPILL_HEADER_SIZE, block);
    crate::evolve::lemma_page_inside(t, d, w.index as int, w.page);
    crate::bucket::law_bucket_read_back(changed, bs);
    assert(dat2.subrange(at + 8, at + 8 + bs) =~= block);
    assert(dat2.subrange(at + 6, at + 8) =~= d.dat.subrange(at + 6, at + 8));
}

/// The bucket of a found key has been written over with the key's entry
/// changed or removed.
pub open spec fn entry_changed(
    t: Table,
    d: Disk,
    l: LookupView,
    t2: Table,
    d2: Disk,
    changed: BucketView,
    added: Option<BucketEntry>,
) -> bool {
    let w = l.walk;
    let i = w.index as int;
    let bs = t.bs();
    let index = w.stage->At_index as int;
    &&& t2 == t.counting(t2.header.key_count)
    &&& changed.spill == w.current().spill
    &&& changed.entries == match added {
        Some(e) => w.current().entries.update(index, e),
        None => w.current().entries.remove(index),
    }
    &&& if w.page == 0 {
        crate::evolve::kept(d.dat, d2.dat, 0, 0)
    } else {
        &&& crate::evolve::kept(d.dat, d2.dat, w.page as int, SPILL_HEADER_SIZE + bs)
        &&& crate::model::spill_page(d2.dat, bs, w.page as int) == Some(changed)
    }
    &&& d2.dat.len() <= MAX_DAT_SIZE
    &&& d2.key.len() == d.key.len()
    &&& d2.key.subrange(0, bs) == t2.header.block()
    &&& forall|j: int|
        0 <= j < t.header.bucket_count && j != i ==> #[trigger] crate::effects::block_at(
            d2.key,
            bs,
            j,
        ) == crate::effects::block_at(d.key, bs, j)
    &&& BucketView::decoding(crate::effects::block_at(d2.key, bs, i)) == Some(
        first_after(w, changed),
    )
    &&& added matches Some(e) ==> {
        &&& e.offset >= d.dat.len()
        &&& t.entry_ok(d2, i, e)
        &&& t.key_of(d2, e) == l.key
    }
}

/// What the chain lists then.
proof fn lemma_entry_changed_chain(
    t: Table,
    d: Disk,
    l: LookupView,
    t2: Table,
    d2: Disk,
    changed: BucketView,
    added: Option<BucketEntry>,
)
    requires
        t.well_formed(d),
        matched(t, d, l),
        entry_changed(t, d, l, t2, d2, changed, added),
    ensures
        ({
            let bs = t.bs();
            let i = l.walk.index as int;
            let s = t.entries(d, i);
            let gone = l.walk.current().entries[l.walk.stage->At_index as int];
            let home2 = first_after(l.walk, changed);
            let after = crate::chain::whole(d2.dat, bs, home2);
            &&& crate::model::linked(d2.dat, bs, home2.spill)
            &&& crate::model::pages(d2.dat, bs, home2.spill) == t.pages(d, i)
            &&& crate::model::distinct(d2.dat, t.ks(), after)
            &&& s.contains(gone)
            &&& t.listed(d, gone)
            &&& forall|x: BucketEntry| #[trigger]
                after.contains(x) <==> s.contains(x) && Some(gone) != Some(x) || added == Some(x)
        }),
{
    let w = l.walk;
    let i = w.index as int;
    let bs = t.bs();
    let index = w.stage->At_index as int;
    let s = t.entries(d, i);
    let at = place_of(t, d, l);
    let gone = w.current().entries[index];
    let home2 = first_after(w, changed);
    let after = crate::chain::whole(d2.dat, bs, home2);
    let (a, wide) = if w.page == 0 {
        (0u64, 0int)
    } else {
        (w.page, SPILL_HEADER_SIZE + bs)
    };
    lemma_standing(t, d, w);
    assert(s[at] == gone);
    assert(s.contains(gone));
    lemma_current_changed(t, d, w, changed, d2.dat);
    crate::evolve::lemma_listed_spared(t, d, d2, a, wide, gone);
    crate::evolve::lemma_distinct_spared(t, d, d2, a, wide, i);
    match added {
        Some(e) => {
            assert(after =~= s.update(at, e));
            crate::chain::lemma_update_distinct(d2.dat, t.ks(), s, at, e);
            assert forall|x: BucketEntry| #[trigger]
                after.contains(x) <==> s.contains(x) && Some(gone) != Some(x) || added == Some(
                    x,
                ) by {
                crate::chain::lemma_update_lists(d2.dat, t.ks(), s, at, e, x);
            }
        },
        None => {
            assert(after =~= s.remove(at));
            crate::chain::lemma_remove_distinct(d2.dat, t.ks(), s, at);
            assert forall|x: BucketEntry| #[trigger]
                after.contains(x) <==> s.contains(x) && Some(gone) != Some(x) || added == Some(
                    x,
                ) by {
                crate::chain::lemma_remove_lists(d2.dat, t.ks(), s, at, x);
            }
        },
    }
}

/// What the files store then.
proof fn lemma_entry_changed(
    t: Table,
    d: Disk,
    l: LookupView,
    t2: Table,
    d2: Disk,
    changed: BucketView,
    added: Option<BucketEntry>,
)
    requires
        t.well_formed(d),
        matched(t, d, l),
        entry_changed(t, d, l, t2, d2, changed, added),
    ensures
        t2.well_formed(d2),
        t2.contents(d2) == match added {
            Some(e) => t.contents(d).insert(l.key, t.value_of(d2, e)),
            None => t.contents(d).remove(l.key),
        },
{
    let w = l.walk;
    let i = w.index as int;
    let bs = t.bs();
    let gone = w.current().entries[w.stage->At_index as int];
    let home2 = first_after(w, changed);
    let (a, wide) = if w.page == 0 {
        (0u64, 0int)
    } else {
        (w.page, SPILL_HEADER_SIZE + bs)
    };
    lemma_entry_changed_chain(t, d, l, t2, d2, changed, added);
    assert forall|p: u64| #[trigger]
        crate::model::pages(d2.dat, bs, home2.spill).contains(p) implies p < d.dat.len() by {
        crate::evolve::lemma_page_inside(t, d, i, p);
    }
    assert(added matches Some(e) ==> t2.entry_ok(d2, i, e) == t.entry_ok(d2, i, e));
    assert(one_rebuilt(t, d, t2, d2, i, a, wide, home2, added));
    lemma_one_rebuilt(t, d, t2, d2, i, a, wide, home2, added);
    crate::evolve::lemma_rebuilt(t, d, t2, d2, set![i], a, wide);
    lemma_one_listed(t, d, t2, d2, i, a, wide, Some(gone), added);
    crate::effects::lemma_contents_changed(
        t,
        d,
        t2,
        d2,
        set![i],
        a,
        wide,
        l.key,
        Some(gone),
        added,
    );
}

/// Giving a stored key another value.
#[verifier::rlimit(40)]
pub proof fn lemma_replaced(t: Table, d: Disk, l: LookupView, value: Seq<u8>, d2: Disk)
    requires
        t.well_formed(d),
        matched(t, d, l),
        t.replacement(l, value, d.dat.len() as u64) is Ok,
        d2 == crate::effects::all_written(
            d,
            t.replacement(l, value, d.dat.len() as u64)->Ok_0,
        ),
    ensures
        t.well_formed(d2),
        t.contents(d2) == t.contents(d).insert(l.key, value),
        d2.dat.len() == d.dat.len() + 6 + l.key.len() + value.len(),
{
    broadcast use crate::codec::lemma_be_bytes_len;

    let w = l.walk;
    let i = w.index as int;
    let bs = t.bs();
    let len = d.dat.len() as u64;
    let writes = t.replacement(l, value, len)->Ok_0;
    let record = crate::write::data_record(l.key, value);
    let e = t.entry_for(l, value, len);
    let index = w.stage->At_index as int;
    let bucket = w.current();
    let changed = BucketView { entries: bucket.entries.update(index, e), ..bucket };
    let home2 = first_after(w, changed);
    let dat1 = d.dat + record;
    lemma_standing(t, d, w);
    assert(changed.fits(bs)) by {
        assert forall|k: int| 0 <= k < changed.entries.len() implies (
        #[trigger] changed.entries[k]).fits() by {
            if k != index {
                assert(changed.entries[k] == bucket.entries[k]);
            }
        }
    }
    assert(crate::effects::spliced(d.dat, len as int, record) =~= dat1);
    assert(t.counting(t.header.key_count) == t);
    lemma_key_file(t, d, t, i, home2);
    if w.page == 0 {
        crate::effects::lemma_two_written(d, writes);
        assert(d2.dat == dat1);
    } else {
        crate::effects::lemma_three_written(d, writes);
        lemma_patched_page(t, d, w, changed, dat1);
    }
    assert(d2.key == crate::effects::spliced(d.key, (i + 1) * bs, home2.encoding(bs)));
    assert(d2.dat.subrange(len as int, len + record.len()) =~= record);
    lemma_record_read_back(d2.dat, len as int, l.key, value);
    assert(entry_changed(t, d, l, t, d2, changed, Some(e)));
    lemma_entry_changed(t, d, l, t, d2, changed, Some(e));
}

/// Removing a stored key.
pub proof fn lemma_removed(t: Table, d: Disk, l: LookupView, t2: Table, d2: Disk)
    requires
        t.well_formed(d),
        matched(t, d, l),
        t.removal(l) is Ok,
        t2 == t.counting(t2.header.key_count),
        d2 == crate::effects::written(
            crate::effects::all_written(d, t.removal(l)->Ok_0),
            t2.header_block(),
        ),
    ensures
        t2.well_formed(d2),
        t2.contents(d2) == t.contents(d).remove(l.key),
        d2.dat.len() == d.dat.len(),
{
    let w = l.walk;
    let i = w.index as int;
    let bs = t.bs();
    let n = t.header.bucket_count as int;
    let writes = t.removal(l)->Ok_0;
    let index = w.stage->At_index as int;
    let bucket = w.current();
    let changed = BucketView { entries: bucket.entries.remove(index), ..bucket };
    lemma_standing(t, d, w);
    assert(changed.fits(bs)) by {
        assert forall|k: int| 0 <= k < changed.entries.len() implies (
        #[trigger] changed.entries[k]).fits() by {
            if k < index {
                assert(changed.entries[k] == bucket.entries[k]);
            } else {
                assert(changed.entries[k] == bucket.entries[k + 1]);
            }
        }
    }
    reveal_with_fuel(crate::effects::all_written, 2);
    assert(writes.drop_last() =~= Seq::empty());
    if w.page == 0 {
        lemma_key_file(t, d, t2, i, changed);
    } else {
        lemma_patched_page(t, d, w, changed, d.dat);
        crate::effects::lemma_header_block_len(t2.header);
        crate::effects::lemma_header_spliced(d.key, bs, n, t2.header.block());
        assert(crate::effects::block_at(d2.key, bs, i) == t.block_of(d, i));
    }
    assert(entry_changed(t, d, l, t2, d2, changed, None));
    lemma_entry_changed(t, d, l, t2, d2, changed, None);
}

/// Whether an entry stays in the bucket that is split next.
pub open spec fn staying(t: Table, d: Disk) -> spec_fn(BucketEntry) -> bool {
    |e: BucketEntry| crate::split::stays(t.level, t.next, t.hash(t.key_of(d, e)))
}

/// Whether an entry moves out of the bucket that is split next.
pub open spec fn leaving(t: Table, d: Disk) -> spec_fn(BucketEntry) -> bool {
    |e: BucketEntry| !crate::split::stays(t.level, t.next, t.hash(t.key_of(d, e)))
}

/// The split has placed every entry of its bucket by the hash of its key.
pub open spec fn parted(t: Table, d: Disk, sp: SplitView) -> bool {
    let s = t.entries(d, t.next as int);
    &&& sp.next == t.next
    &&& sp.keep == s.filter(staying(t, d))
    &&& sp.moved == s.filter(leaving(t, d))
    &&& forall|x: BucketEntry| #[trigger]
        s.contains(x) <==> sp.keep.contains(x) || sp.moved.contains(x)
    &&& forall|x: BucketEntry| #[trigger]
        sp.keep.contains(x) ==> crate::split::stays(t.level, t.next, t.hash(t.key_of(d, x)))
    &&& forall|x: BucketEntry| #[trigger]
        sp.moved.contains(x) ==> !crate::split::stays(t.level, t.next, t.hash(t.key_of(d, x)))
    &&& forall|i: int| 0 <= i < sp.keep.len() ==> (#[trigger] sp.keep[i]).fits()
    &&& forall|i: int| 0 <= i < sp.moved.len() ==> (#[trigger] sp.moved[i]).fits()
    &&& crate::model::distinct(d.dat, t.ks(), sp.keep)
    &&& crate::model::distinct(d.dat, t.ks(), sp.moved)
}

/// One more bucket leaves the table in order.
pub proof fn lemma_grown_ok(t: Table)
    requires
        t.regular(),
        t.can_grow(),
    ensures
        t.grown().regular(),
        t.grown().header.bucket_count == t.header.bucket_count + 1,
{
    t.lemma_level_bound();
    crate::linear::law_split_state(t.level, t.next, t.header.bucket_count);
}

/// Where the entries of a split bucket belong.
proof fn lemma_parted_index(t: Table, d: Disk, sp: SplitView, x: BucketEntry)
    requires
        t.well_formed(d),
        t.can_grow(),
        parted(t, d, sp),
        t.entries(d, t.next as int).contains(x),
    ensures
        sp.keep.contains(x) ==> t.grown().index(t.hash(t.key_of(d, x))) == t.next,
        sp.moved.contains(x) ==> t.grown().index(t.hash(t.key_of(d, x))) == t.header.bucket_count,
        t.listed(d, x),
        x.offset < d.dat.len(),
{
    let n = t.header.bucket_count;
    let hash = t.hash(t.key_of(d, x));
    t.lemma_level_bound();
    vstd::arithmetic::power2::lemma_pow2_pos(t.level as nat);
    assert(t.bucket_ok(d, t.next as int));
    assert(t.entry_ok(d, t.next as int, x));
    crate::linear::lemma_power_bound(t.level);
    crate::linear::law_split_moves(t.level, t.next, n, hash);
}

/// A list of entries leads to distinct keys in a data file that has grown.
proof fn lemma_distinct_grown(t: Table, d: Disk, d2: Disk, s: Seq<BucketEntry>)
    requires
        t.well_formed(d),
        crate::evolve::kept(d.dat, d2.dat, 0, 0),
        crate::model::distinct(d.dat, t.ks(), s),
        forall|x: BucketEntry| #[trigger] s.contains(x) ==> t.listed(d, x),
    ensures
        crate::model::distinct(d2.dat, t.ks(), s),
{
    assert forall|a: int, b: int| 0 <= a < b < s.len() implies crate::model::record_key(
        d2.dat,
        t.ks(),
        (#[trigger] s[a]).offset as int,
    ) != crate::model::record_key(d2.dat, t.ks(), (#[trigger] s[b]).offset as int) by {
        assert(s.contains(s[a]) && s.contains(s[b]));
        crate::evolve::lemma_listed_spared(t, d, d2, 0, 0, s[a]);
        crate::evolve::lemma_listed_spared(t, d, d2, 0, 0, s[b]);
        assert(t.key_of(d, s[a]) != t.key_of(d, s[b]));
    }
}

/// The two chains that a split writes.
proof fn lemma_split_chains(t: Table, d: Disk, sp: SplitView, d2: Disk)
    requires
        t.well_formed(d),
        t.can_grow(),
        parted(t, d, sp),
        t.splitted(sp, d.dat.len() as u64) is Ok,
        d2.dat == ({
            let (keep, tail) = crate::write::gathered(t.header, sp.keep, d.dat.len() as int);
            let (moved, more) = crate::write::gathered(
                t.header,
                sp.moved,
                (d.dat.len() + tail.len()) as int,
            );
            d.dat + tail + more
        }),
    ensures
        ({
            let bs = t.bs();
            let (keep, tail) = crate::write::gathered(t.header, sp.keep, d.dat.len() as int);
            let (moved, more) = crate::write::gathered(
                t.header,
                sp.moved,
                (d.dat.len() + tail.len()) as int,
            );
            let kept_whole = crate::chain::whole(d2.dat, bs, keep);
            let moved_whole = crate::chain::whole(d2.dat, bs, moved);
            let middle = d.dat.len() + tail.len();
            &&& keep.fits(bs)
            &&& moved.fits(bs)
            &&& crate::evolve::kept(d.dat, d2.dat, 0, 0)
            &&& d2.dat.len() <= MAX_DAT_SIZE
            &&& d2.dat.len() == d.dat.len() + t.split_spill(sp)
            &&& crate::model::linked(d2.dat, bs, keep.spill)
            &&& crate::model::linked(d2.dat, bs, moved.spill)
            &&& crate::model::distinct(d2.dat, t.ks(), kept_whole)
            &&& crate::model::distinct(d2.dat, t.ks(), moved_whole)
            &&& forall|x: BucketEntry| #[trigger] kept_whole.contains(x) <==> sp.keep.contains(x)
            &&& forall|x: BucketEntry| #[trigger] moved_whole.contains(x) <==> sp.moved.contains(x)
            &&& forall|p: u64| #[trigger]
                crate::model::pages(d2.dat, bs, keep.spill).contains(p) ==> d.dat.len() <= p && p
                    + SPILL_HEADER_SIZE + bs <= middle
            &&& forall|p: u64| #[trigger]
                crate::model::pages(d2.dat, bs, moved.spill).contains(p) ==> middle <= p
        }),
{
    let bs = t.bs();
    let h = t.header;
    let size = crate::write::spill_size(h);
    let kept = crate::write::spills(h, sp.keep.len() as int);
    let gone = crate::write::spills(h, sp.moved.len() as int);
    let (keep, tail) = crate::write::gathered(h, sp.keep, d.dat.len() as int);
    let (moved, more) = crate::write::gathered(h, sp.moved, (d.dat.len() + tail.len()) as int);
    let dat1 = d.dat + tail;
    crate::write::lemma_spills_monotone(h, 0, sp.keep.len() as int);
    crate::write::lemma_spills_monotone(h, 0, sp.moved.len() as int);
    crate::write::lemma_room_parts(h, d.dat.len() as int, kept, gone);
    crate::write::lemma_room_parts(h, d.dat.len() as int, kept + gone, 0);
    crate::write::lemma_gathered(h, sp.keep, d.dat.len() as int);
    crate::write::lemma_gathered(h, sp.moved, dat1.len() as int);
    crate::chain::lemma_gathered_chain(h, d.dat, sp.keep, d.dat, t.ks());
    crate::chain::lemma_gathered_chain(h, dat1, sp.moved, d.dat, t.ks());
    crate::model::lemma_pages(dat1, bs, keep.spill);
    crate::chain::lemma_chain_grown(dat1, d2.dat, bs, keep.spill);
    let kept_whole = crate::chain::whole(d2.dat, bs, keep);
    let moved_whole = crate::chain::whole(d2.dat, bs, moved);
    assert(kept_whole == crate::chain::whole(dat1, bs, keep));
    assert forall|x: BucketEntry|
        sp.keep.contains(x) || sp.moved.contains(x) implies #[trigger] t.listed(d, x) by {
        vstd::arithmetic::power2::lemma_pow2_pos(t.level as nat);
        assert(t.entries(d, t.next as int).contains(x));
    }
    lemma_distinct_grown(t, d, d2, kept_whole);
    lemma_distinct_grown(t, d, d2, moved_whole);
}

/// The key file after a split.
proof fn lemma_split_key_file(t: Table, d: Disk, keep: BucketView, moved: BucketView)
    requires
        t.well_formed(d),
        t.can_grow(),
        keep.fits(t.bs()),
        moved.fits(t.bs()),
    ensures
        ({
            let bs = t.bs();
            let n = t.header.bucket_count as int;
            let next = t.next as int;
            let key1 = crate::effects::spliced(d.key, (next + 1) * bs, keep.encoding(bs));
            let key2 = crate::effects::spliced(key1, (n + 1) * bs, moved.encoding(bs));
            let key3 = crate::effects::spliced(key2, 0, t.grown().header.block());
            &&& 0 <= next < n
            &&& t.block(t.next, keep).offset == (next + 1) * bs
            &&& t.block(t.header.bucket_count, moved).offset == (n + 1) * bs
            &&& key3.len() == (n + 2) * bs
            &&& key3.subrange(0, bs) == t.grown().header.block()
            &&& BucketView::decoding(crate::effects::block_at(key3, bs, next)) == Some(keep)
            &&& BucketView::decoding(crate::effects::block_at(key3, bs, n)) == Some(moved)
            &&& forall|j: int|
                0 <= j < n && j != next ==> #[trigger] crate::effects::block_at(key3, bs, j)
                    == crate::effects::block_at(d.key, bs, j)
        }),
{
    let bs = t.bs();
    let n = t.header.bucket_count as int;
    let next = t.next as int;
    t.lemma_level_bound();
    vstd::arithmetic::power2::lemma_pow2_pos(t.level as nat);
    t.lemma_block_offset(next);
    crate::bucket::law_bucket_read_back(keep, bs);
    crate::bucket::law_bucket_read_back(moved, bs);
    let key1 = crate::effects::spliced(d.key, (next + 1) * bs, keep.encoding(bs));
    let key2 = crate::effects::spliced(key1, (n + 1) * bs, moved.encoding(bs));
    let key3 = crate::effects::spliced(key2, 0, t.grown().header.block());
    crate::effects::lemma_block_spliced(d.key, bs, n, next, keep.encoding(bs));
    crate::effects::lemma_block_spliced(key1, bs, n, n, moved.encoding(bs));
    crate::effects::lemma_header_block_len(t.grown().header);
    crate::effects::lemma_header_spliced(key2, bs, n + 1, t.grown().header.block());
    assert(crate::effects::block_at(key2, bs, next) == crate::effects::block_at(key1, bs, next));
    assert forall|j: int| 0 <= j < n && j != next implies #[trigger] crate::effects::block_at(
        key3,
        bs,
        j,
    ) == crate::effects::block_at(d.key, bs, j) by {
        assert(crate::effects::block_at(key2, bs, j) == crate::effects::block_at(key1, bs, j));
    }
}

/// The files after a split are rebuilt from those before it.
proof fn lemma_split_rebuilt(
    t: Table,
    d: Disk,
    sp: SplitView,
    d2: Disk,
    keep: BucketView,
    moved: BucketView,
    middle: int,
)
    requires
        t.well_formed(d),
        t.can_grow(),
        parted(t, d, sp),
        d2.key.len() == (t.header.bucket_count + 2) * t.header.block_size,
        d2.key.subrange(0, t.bs()) == t.grown().header.block(),
        BucketView::decoding(crate::effects::block_at(d2.key, t.bs(), t.next as int)) == Some(keep),
        BucketView::decoding(
            crate::effects::block_at(d2.key, t.bs(), t.header.bucket_count as int),
        ) == Some(moved),
        forall|j: int|
            0 <= j < t.header.bucket_count && j != t.next ==> #[trigger] crate::effects::block_at(
                d2.key,
                t.bs(),
                j,
            ) == crate::effects::block_at(d.key, t.bs(), j),
        crate::evolve::kept(d.dat, d2.dat, 0, 0),
        d2.dat.len() <= MAX_DAT_SIZE,
        crate::model::linked(d2.dat, t.bs(), keep.spill),
        crate::model::linked(d2.dat, t.bs(), moved.spill),
        crate::model::distinct(d2.dat, t.ks(), crate::chain::whole(d2.dat, t.bs(), keep)),
        crate::model::distinct(d2.dat, t.ks(), crate::chain::whole(d2.dat, t.bs(), moved)),
        forall|x: BucketEntry| #[trigger]
            crate::chain::whole(d2.dat, t.bs(), keep).contains(x) <==> sp.keep.contains(x),
        forall|x: BucketEntry| #[trigger]
            crate::chain::whole(d2.dat, t.bs(), moved).contains(x) <==> sp.moved.contains(x),
        forall|p: u64| #[trigger]
            crate::model::pages(d2.dat, t.bs(), keep.spill).contains(p) ==> d.dat.len() <= p && p
                + SPILL_HEADER_SIZE + t.bs() <= middle,
        forall|p: u64| #[trigger]
            crate::model::pages(d2.dat, t.bs(), moved.spill).contains(p) ==> middle <= p,
        d.dat.len() <= middle,
    ensures
        crate::evolve::rebuilt(
            t,
            d,
            t.grown(),
            d2,
            set![t.next as int, t.header.bucket_count as int],
            0,
            0,
        ),
        t.grown().entries(d2, t.next as int) == crate::chain::whole(d2.dat, t.bs(), keep),
        t.grown().entries(d2, t.header.bucket_count as int) == crate::chain::whole(
            d2.dat,
            t.bs(),
            moved,
        ),
{
    reveal(crate::evolve::rebuilt);
    let bs = t.bs();
    let n = t.header.bucket_count as int;
    let next = t.next as int;
    let t2 = t.grown();
    let touched = set![next, n];
    lemma_grown_ok(t);
    t.lemma_level_bound();
    vstd::arithmetic::power2::lemma_pow2_pos(t.level as nat);
    assert(t2.block_of(d2, next) == crate::effects::block_at(d2.key, bs, next));
    assert(t2.block_of(d2, n) == crate::effects::block_at(d2.key, bs, n));
    assert(t2.home(d2, next) == Some(keep));
    assert(t2.home(d2, n) == Some(moved));
    assert forall|j: int| 0 <= j < n + 1 && !#[trigger] touched.contains(j) implies j < n
        && t.block_of(d2, j) == t.block_of(d, j) by {
        assert(crate::effects::block_at(d2.key, bs, j) == crate::effects::block_at(d.key, bs, j));
    }
    assert forall|j: int, hash: u64|
        0 <= j < n && !#[trigger] touched.contains(j) && #[trigger] t.index(hash)
            == j implies t2.index(hash) == j by {
        crate::linear::law_split_moves(t.level, t.next, t.header.bucket_count, hash);
    }
    assert forall|j: int, e: BucketEntry|
        0 <= j < n + 1 && touched.contains(j) && #[trigger] t2.entries(d2, j).contains(
            e,
        ) implies crate::evolve::inherited(t, d, t2, j, e) && e.offset < d.dat.len() by {
        assert(t.entries(d, next).contains(e));
        lemma_parted_index(t, d, sp, e);
    }
}

/// A split leaves what the files store as it was.
pub proof fn lemma_split_done(t: Table, d: Disk, sp: SplitView, d2: Disk)
    requires
        t.well_formed(d),
        t.can_grow(),
        parted(t, d, sp),
        t.splitted(sp, d.dat.len() as u64) is Ok,
        d2 == crate::effects::written(
            crate::effects::all_written(d, t.splitted(sp, d.dat.len() as u64)->Ok_0),
            t.grown().header_block(),
        ),
    ensures
        t.grown().well_formed(d2),
        t.grown().contents(d2) == t.contents(d),
        d2.dat.len() == d.dat.len() + t.split_spill(sp),
{
    let bs = t.bs();
    let n = t.header.bucket_count as int;
    let next = t.next as int;
    let t2 = t.grown();
    let touched = set![next, n];
    let writes = t.splitted(sp, d.dat.len() as u64)->Ok_0;
    let (keep, tail) = crate::write::gathered(t.header, sp.keep, d.dat.len() as int);
    let (moved, more) = crate::write::gathered(t.header, sp.moved, (d.dat.len() + tail.len()) as int);
    crate::effects::lemma_three_written(d, writes);
    assert(d2.dat =~= d.dat + tail + more);
    lemma_split_chains(t, d, sp, d2);
    lemma_split_key_file(t, d, keep, moved);
    lemma_split_rebuilt(t, d, sp, d2, keep, moved, (d.dat.len() + tail.len()) as int);
    lemma_grown_ok(t);
    crate::evolve::lemma_rebuilt(t, d, t2, d2, touched, 0, 0);
    assert forall|x: BucketEntry| #[trigger] t2.listed(d2, x) <==> t.listed(d, x) by {
        crate::evolve::lemma_rebuilt_lists(t, d, t2, d2, touched, 0, 0, x);
        if t.listed(d, x) {
            let j = choose|j: int| 0 <= j < n && #[trigger] t.entries(d, j).contains(x);
            if j == next {
                if sp.keep.contains(x) {
                    assert(t2.entries(d2, next).contains(x));
                } else {
                    assert(t2.entries(d2, n).contains(x));
                }
            }
        }
        if sp.keep.contains(x) || sp.moved.contains(x) {
            assert(t.entries(d, next).contains(x));
        }
    }
    crate::effects::lemma_contents_same(t, d, t2, d2, touched, 0, 0);
}

} // verus!

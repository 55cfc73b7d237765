//! How walks, lookups and splits get on in well formed files: every read they
//! ask for can be answered, they go past no entry unseen, and they end.

use crate::bucket::BucketEntry;
use crate::format::SPILL_HEADER_SIZE;
use crate::lookup::LookupView;
use crate::model::Disk;
use crate::split::SplitView;
use crate::table::Table;
use crate::walk::{FileKind, Request, Stage, WalkView};
use vstd::prelude::*;

verus! {

/// The bytes of a file.
pub open spec fn file_of(d: Disk, file: FileKind) -> Seq<u8> {
    match file {
        FileKind::Dat => d.dat,
        FileKind::Key => d.key,
    }
}

/// The file holds all the bytes that are asked for.
pub open spec fn available(d: Disk, request: Request) -> bool {
    request.offset + request.len <= file_of(d, request.file).len()
}

/// The bytes that are asked for.
pub open spec fn answer(d: Disk, request: Request) -> Seq<u8> {
    file_of(d, request.file).subrange(
        request.offset as int,
        request.offset + request.len,
    )
}

/// What the walk has read is what the files hold, and it stands where it says.
pub open spec fn reading(t: Table, d: Disk, w: WalkView) -> bool {
    &&& w.sound()
    &&& w.key_size == t.header.key_size
    &&& w.block_size == t.header.block_size
    &&& w.index < t.header.bucket_count
    &&& match w.stage {
        Stage::Bucket => w.page == 0,
        Stage::Size { index } => crate::ops::standing(t, d, w) && crate::walk::of_interest(
            w.filter,
            w.current().entries[index as int],
        ),
        Stage::Body { index, total } => {
            &&& crate::ops::standing(t, d, w)
            &&& crate::walk::of_interest(w.filter, w.current().entries[index as int])
            &&& total == crate::model::record_total(
                d.dat,
                w.current().entries[index as int].offset as int,
            )
        },
        Stage::At { index } => crate::ops::standing(t, d, w) && crate::walk::of_interest(
            w.filter,
            w.current().entries[index as int],
        ),
        Stage::SpillSize { offset } => crate::ops::standing(t, d, w) && offset
            == w.current().spill,
        Stage::SpillBody { offset, len } => {
            &&& crate::ops::standing(t, d, w)
            &&& offset == w.current().spill
            &&& len == t.bs()
        },
        Stage::End => crate::ops::standing(t, d, w) && w.current().spill == 0,
    }
}

/// How many of the chain's entries the walk has gone past.
pub open spec fn position(t: Table, d: Disk, w: WalkView) -> int {
    match w.stage {
        Stage::Bucket => 0,
        Stage::Size { index } => crate::ops::behind(t, d, w).len() + index,
        Stage::Body { index, .. } => crate::ops::behind(t, d, w).len() + index,
        Stage::At { index } => crate::ops::behind(t, d, w).len() + index,
        Stage::SpillSize { .. } | Stage::SpillBody { .. } | Stage::End => (crate::ops::behind(
            t,
            d,
            w,
        ).len() + w.current().entries.len()) as int,
    }
}

/// The spill records that the walk has yet to read, and its first bucket.
pub open spec fn pages_left(t: Table, d: Disk, w: WalkView) -> nat {
    if w.stage is Bucket {
        t.pages(d, w.index as int).len() + 1
    } else {
        crate::model::pages(d.dat, t.bs(), w.current().spill).len()
    }
}

/// The entries of its bucket that the walk has yet to go past.
pub open spec fn entries_left(w: WalkView) -> int {
    match w.stage {
        Stage::Size { index } => w.current().entries.len() - index,
        Stage::Body { index, .. } => w.current().entries.len() - index,
        Stage::At { index } => w.current().entries.len() - index,
        _ => 0,
    }
}

/// The reads that are left before the walk moves on.
pub open spec fn reads_left(w: WalkView) -> int {
    match w.stage {
        Stage::Size { .. } => 2,
        Stage::Body { .. } => 1,
        Stage::SpillSize { .. } => 1,
        _ => 0,
    }
}

/// The walk is nearer to its end.
pub open spec fn nearer(t: Table, d: Disk, w: WalkView, w2: WalkView) -> bool {
    ||| pages_left(t, d, w2) < pages_left(t, d, w)
    ||| pages_left(t, d, w2) == pages_left(t, d, w) && 0 <= entries_left(w2) < entries_left(w)
    ||| pages_left(t, d, w2) == pages_left(t, d, w) && entries_left(w2) == entries_left(w) && 0
        <= reads_left(w2) < reads_left(w)
}

/// The spill record that a spill record of a chain points to is in the chain.
pub proof fn lemma_next_page(dat: Seq<u8>, bs: int, spill: u64, a: u64)
    requires
        bs >= 0,
        crate::model::linked(dat, bs, spill),
        crate::model::pages(dat, bs, spill).contains(a),
        crate::model::spill_page(dat, bs, a as int) is Some,
        crate::model::spill_page(dat, bs, a as int)->Some_0.spill != 0,
    ensures
        crate::model::pages(dat, bs, spill).contains(
            crate::model::spill_page(dat, bs, a as int)->Some_0.spill,
        ),
    decreases spill,
{
    let first = crate::model::spill_page(dat, bs, spill as int)->Some_0;
    let all = crate::model::pages(dat, bs, spill);
    let rest = crate::model::pages(dat, bs, first.spill);
    let k = choose|k: int| 0 <= k < all.len() && all[k] == a;
    let next = if a == spill {
        crate::model::lemma_pages(dat, bs, first.spill);
        first.spill
    } else {
        assert(rest[k - 1] == a);
        lemma_next_page(dat, bs, first.spill, a);
        crate::model::spill_page(dat, bs, a as int)->Some_0.spill
    };
    let j = choose|j: int| 0 <= j < rest.len() && rest[j] == next;
    assert(all[j + 1] == next);
}

/// Settling goes past entries that are not of interest only.
proof fn lemma_settled(t: Table, d: Disk, w: WalkView, from: int)
    requires
        t.well_formed(d),
        crate::ops::standing(t, d, w),
        (WalkView { stage: Stage::End, ..w }).sound(),
        0 <= from <= w.current().entries.len(),
    ensures
        ({
            let w2 = w.settled(from);
            let s = t.entries(d, w.index as int);
            let start = crate::ops::behind(t, d, w).len() + from;
            &&& reading(t, d, w2)
            &&& crate::ops::behind(t, d, w2) == crate::ops::behind(t, d, w)
            &&& w2.current() == w.current()
            &&& start <= position(t, d, w2) <= s.len()
            &&& forall|k: int|
                start <= k < position(t, d, w2) ==> !crate::walk::of_interest(
                    w.filter,
                    #[trigger] s[k],
                )
            &&& w2.stage is End ==> position(t, d, w2) == s.len()
            &&& !(w2.stage is At) && !(w2.stage is Bucket)
            &&& pages_left(t, d, w2) == crate::model::pages(d.dat, t.bs(), w.current().spill).len()
            &&& 0 <= entries_left(w2) <= w.current().entries.len() - from
        }),
{
    let w2 = w.settled(from);
    let cur = w.current();
    let s = t.entries(d, w.index as int);
    let back = crate::ops::behind(t, d, w).len() as int;
    crate::ops::lemma_standing(t, d, w);
    crate::walk::lemma_next_of_interest_skips(w.filter, cur.entries, from);
    let at = crate::walk::next_of_interest(w.filter, cur.entries, from);
    assert(cur.entries.len() <= 0xffff);
    assert(w2.current() == cur);
    assert(crate::ops::standing(t, d, w2));
    assert forall|k: int| back + from <= k < position(t, d, w2) implies !crate::walk::of_interest(
        w.filter,
        #[trigger] s[k],
    ) by {
        assert(s[k] == cur.entries[k - back]);
    }
    if w2.stage is End {
        assert(crate::ops::ahead(t, d, w) =~= Seq::empty());
    }
}

/// The bytes that the walk asks for are there, and they move it on past no
/// entry of interest, nearer to its end.
pub open spec fn stepped(t: Table, d: Disk, w: WalkView) -> bool {
    let bytes = answer(d, w.wanted()->Some_0);
    let (w2, record) = w.given(bytes)->Ok_0;
    let s = t.entries(d, w.index as int);
    &&& available(d, w.wanted()->Some_0)
    &&& w.given(bytes) is Ok
    &&& reading(t, d, w2)
    &&& w2.index == w.index
    &&& w2.filter == w.filter
    &&& w2.values == w.values
    &&& position(t, d, w) <= position(t, d, w2) <= s.len()
    &&& forall|k: int|
        position(t, d, w) <= k < position(t, d, w2) ==> !crate::walk::of_interest(
            w.filter,
            #[trigger] s[k],
        )
    &&& w2.stage is End ==> position(t, d, w2) == s.len()
    &&& nearer(t, d, w, w2)
    &&& w2.stage is At <==> record is Some
    &&& record matches Some(read) ==> {
        &&& position(t, d, w2) < s.len()
        &&& s[position(t, d, w2)] == w2.current().entries[w2.stage->At_index as int]
        &&& read.key == t.key_of(d, s[position(t, d, w2)])
        &&& w.values ==> read.value == t.value_of(d, s[position(t, d, w2)])
    }
}

proof fn lemma_bucket_step(t: Table, d: Disk, w: WalkView)
    requires
        t.well_formed(d),
        reading(t, d, w),
        w.stage is Bucket,
    ensures
        stepped(t, d, w),
{
    let i = w.index as int;
    let bytes = answer(d, w.wanted()->Some_0);
    assert(t.bucket_ok(d, i));
    t.lemma_block_offset(i);
    assert(bytes == t.block_of(d, i));
    let home = t.home(d, i)->Some_0;
    let arrived = WalkView { home, ..w };
    crate::bucket::lemma_decoded_bucket_fits(bytes);
    lemma_settled(t, d, arrived, 0);
}

/// The entry that the walk stands at, and its record.
pub proof fn lemma_entry_here(t: Table, d: Disk, w: WalkView, index: int)
    requires
        t.well_formed(d),
        crate::ops::standing(t, d, w),
        0 <= index < w.current().entries.len(),
    ensures
        ({
            let s = t.entries(d, w.index as int);
            let at = crate::ops::behind(t, d, w).len() + index;
            let e = w.current().entries[index];
            &&& at < s.len()
            &&& s[at] == e
            &&& e.fits()
            &&& crate::model::record_ok(d.dat, t.ks(), e.offset as int)
            &&& t.entry_ok(d, w.index as int, e)
        }),
{
    let s = t.entries(d, w.index as int);
    crate::ops::lemma_standing(t, d, w);
    let e = w.current().entries[index];
    assert(s[crate::ops::behind(t, d, w).len() + index] == e);
    assert(s.contains(e));
    assert(t.bucket_ok(d, w.index as int));
}

proof fn lemma_size_step(t: Table, d: Disk, w: WalkView)
    requires
        t.well_formed(d),
        reading(t, d, w),
        w.stage is Size,
    ensures
        stepped(t, d, w),
{
    let index = w.stage->Size_index as int;
    let bytes = answer(d, w.wanted()->Some_0);
    lemma_entry_here(t, d, w, index);
    crate::codec::lemma_be_value_bound(bytes);
    crate::codec::lemma_radix_values();
    let w2 = w.given(bytes)->Ok_0.0;
    assert(w2.current() == w.current());
    assert(crate::ops::standing(t, d, w2));
}

proof fn lemma_body_step(t: Table, d: Disk, w: WalkView)
    requires
        t.well_formed(d),
        reading(t, d, w),
        w.stage is Body,
    ensures
        stepped(t, d, w),
{
    let index = w.stage->Body_index as int;
    let bytes = answer(d, w.wanted()->Some_0);
    lemma_entry_here(t, d, w, index);
    let e = w.current().entries[index];
    assert(bytes.take(t.ks()) =~= t.key_of(d, e));
    assert(w.values ==> bytes.skip(t.ks()) =~= t.value_of(d, e));
    let w2 = w.given(bytes)->Ok_0.0;
    assert(w2.current() == w.current());
    assert(crate::ops::standing(t, d, w2));
}

proof fn lemma_spill_size_step(t: Table, d: Disk, w: WalkView)
    requires
        t.well_formed(d),
        reading(t, d, w),
        w.stage is SpillSize,
    ensures
        stepped(t, d, w),
{
    let offset = w.stage->SpillSize_offset;
    let bytes = answer(d, w.wanted()->Some_0);
    crate::ops::lemma_standing(t, d, w);
    crate::model::lemma_pages(d.dat, t.bs(), offset);
    assert(bytes.subrange(6, 8) =~= d.dat.subrange(offset + 6, offset + 8));
    let w2 = w.given(bytes)->Ok_0.0;
    assert(w2.current() == w.current());
    assert(crate::ops::standing(t, d, w2));
}

proof fn lemma_spill_body_step(t: Table, d: Disk, w: WalkView)
    requires
        t.well_formed(d),
        reading(t, d, w),
        w.stage is SpillBody,
    ensures
        stepped(t, d, w),
{
    let bs = t.bs();
    let offset = w.stage->SpillBody_offset;
    let bytes = answer(d, w.wanted()->Some_0);
    crate::ops::lemma_standing(t, d, w);
    crate::model::lemma_pages(d.dat, bs, offset);
    let next = crate::model::spill_page(d.dat, bs, offset as int)->Some_0;
    assert(bytes == d.dat.subrange(offset + SPILL_HEADER_SIZE, offset + SPILL_HEADER_SIZE + bs));
    crate::bucket::lemma_decoded_bucket_fits(bytes);
    let arrived = WalkView { page: offset, spilled: next, ..w };
    assert(t.bucket_ok(d, w.index as int));
    crate::model::lemma_pages(d.dat, bs, w.home.spill);
    if w.page != 0 {
        lemma_next_page(d.dat, bs, w.home.spill, w.page);
    }
    assert(crate::ops::standing(t, d, arrived));
    lemma_behind_next(t, d, w, arrived);
    lemma_settled(t, d, arrived, 0);
}

/// A walk in well formed files gets the bytes it asks for, and they move it
/// on.
pub proof fn lemma_walk_step(t: Table, d: Disk, w: WalkView)
    requires
        t.well_formed(d),
        reading(t, d, w),
        w.wanted() is Some,
    ensures
        stepped(t, d, w),
{
    match w.stage {
        Stage::Bucket => lemma_bucket_step(t, d, w),
        Stage::Size { .. } => lemma_size_step(t, d, w),
        Stage::Body { .. } => lemma_body_step(t, d, w),
        Stage::SpillSize { .. } => lemma_spill_size_step(t, d, w),
        Stage::SpillBody { .. } => lemma_spill_body_step(t, d, w),
        Stage::At { .. } => {},
        Stage::End => {},
    }
}

/// What is behind a spill record is what was behind the bucket before it, and
/// that bucket's entries.
proof fn lemma_behind_next(t: Table, d: Disk, w: WalkView, arrived: WalkView)
    requires
        t.well_formed(d),
        crate::ops::standing(t, d, w),
        crate::ops::standing(t, d, arrived),
        w.current().spill != 0,
        arrived.page == w.current().spill,
        arrived.home == w.home,
        arrived.index == w.index,
    ensures
        crate::ops::behind(t, d, arrived).len() == crate::ops::behind(t, d, w).len()
            + w.current().entries.len(),
{
    crate::ops::lemma_standing(t, d, w);
    crate::ops::lemma_standing(t, d, arrived);
    let bs = t.bs();
    let next = crate::model::spill_page(d.dat, bs, arrived.page as int)->Some_0;
    assert(arrived.current() == next);
    assert(crate::ops::ahead(t, d, w) == next.entries + crate::ops::ahead(t, d, arrived));
    let s = t.entries(d, w.index as int);
    assert(s.len() == crate::ops::behind(t, d, w).len() + w.current().entries.len()
        + crate::ops::ahead(t, d, w).len());
    assert(s.len() == crate::ops::behind(t, d, arrived).len() + next.entries.len()
        + crate::ops::ahead(t, d, arrived).len());
}

/// Going past a record goes past no other entry of interest.
pub proof fn lemma_walk_pass(t: Table, d: Disk, w: WalkView)
    requires
        t.well_formed(d),
        reading(t, d, w),
        w.stage is At,
    ensures
        ({
            let w2 = w.passed();
            let s = t.entries(d, w.index as int);
            &&& reading(t, d, w2)
            &&& w2.index == w.index
            &&& w2.filter == w.filter
            &&& w2.values == w.values
            &&& position(t, d, w) < position(t, d, w2) <= s.len()
            &&& forall|k: int|
                position(t, d, w) < k < position(t, d, w2) ==> !crate::walk::of_interest(
                    w.filter,
                    #[trigger] s[k],
                )
            &&& w2.stage is End ==> position(t, d, w2) == s.len()
            &&& pages_left(t, d, w2) == pages_left(t, d, w)
            &&& 0 <= entries_left(w2) < entries_left(w)
            &&& !(w2.stage is At)
        }),
{
    let index = w.stage->At_index as int;
    crate::ops::lemma_standing(t, d, w);
    lemma_settled(t, d, w, index + 1);
}

/// The lookup is in the chain of its key, has met its key nowhere, or has
/// stopped at it.
pub open spec fn searching(t: Table, d: Disk, l: LookupView) -> bool {
    let s = t.entries(d, l.walk.index as int);
    &&& l.sound()
    &&& reading(t, d, l.walk)
    &&& crate::ops::seeking(t, l)
    &&& position(t, d, l.walk) <= s.len()
    &&& l.walk.stage is End ==> position(t, d, l.walk) == s.len()
    &&& forall|k: int|
        0 <= k < position(t, d, l.walk) ==> t.key_of(d, #[trigger] s[k]) != l.key
    &&& l.value matches Some(value) ==> {
        &&& crate::ops::matched(t, d, l)
        &&& l.walk.values ==> value == t.value_of(
            d,
            l.walk.current().entries[l.walk.stage->At_index as int],
        )
    }
}

/// A lookup of a key starts well.
pub proof fn lemma_lookup_start(t: Table, d: Disk, key: Seq<u8>, values: bool)
    requires
        t.well_formed(d),
        key.len() == t.ks(),
        t.looking(key, t.hash(key), values).sound(),
    ensures
        searching(t, d, t.looking(key, t.hash(key), values)),
{
    let l = t.looking(key, t.hash(key), values);
    t.lemma_level_bound();
    crate::linear::law_index_in_range(t.level, t.next, t.header.bucket_count, t.hash(key));
}

/// A lookup in well formed files goes on well, and comes nearer to its end.
pub proof fn lemma_lookup_step(t: Table, d: Disk, l: LookupView)
    requires
        t.well_formed(d),
        searching(t, d, l),
        l.walk.wanted() is Some,
    ensures
        available(d, l.walk.wanted()->Some_0),
        l.given(answer(d, l.walk.wanted()->Some_0)) is Ok,
        ({
            let l2 = l.given(answer(d, l.walk.wanted()->Some_0))->Ok_0;
            &&& l2.sound() ==> searching(t, d, l2)
            &&& l2.key == l.key
            &&& l2.walk.values == l.walk.values
            &&& nearer(t, d, l.walk, l2.walk)
        }),
{
    lemma_walk_step(t, d, l.walk);
    let i = l.walk.index as int;
    let s = t.entries(d, i);
    let (w2, record) = l.walk.given(answer(d, l.walk.wanted()->Some_0))->Ok_0;
    let l2 = l.given(answer(d, l.walk.wanted()->Some_0))->Ok_0;
    assert(t.bucket_ok(d, i));
    assert forall|k: int|
        0 <= k < s.len() && !crate::walk::of_interest(l.walk.filter, #[trigger] s[k]) implies
        t.key_of(d, s[k]) != l.key by {
        assert(s.contains(s[k]));
        assert(t.entry_ok(d, i, s[k]));
    }
    assert(forall|k: int|
        0 <= k < position(t, d, w2) ==> t.key_of(d, #[trigger] s[k]) != l.key);
    if record is Some {
        if record->Some_0.key != l.key {
            lemma_walk_pass(t, d, w2);
            assert(forall|k: int|
                0 <= k < position(t, d, w2.passed()) ==> t.key_of(d, #[trigger] s[k]) != l.key) by {
                assert(t.key_of(d, s[position(t, d, w2)]) != l.key);
            }
        }
    }
}

/// What a lookup has found when it is over.
pub proof fn lemma_lookup_over(t: Table, d: Disk, l: LookupView)
    requires
        t.well_formed(d),
        searching(t, d, l),
        l.walk.wanted() is None,
    ensures
        l.found() || l.missing(),
        crate::ops::standing(t, d, l.walk),
        l.value matches Some(value) ==> {
            &&& crate::ops::matched(t, d, l)
            &&& t.contents(d).contains_key(l.key)
            &&& l.walk.values ==> t.contents(d)[l.key] == value
        },
        l.value is None ==> !t.contents(d).contains_key(l.key),
{
    let i = l.walk.index as int;
    let s = t.entries(d, i);
    if l.value is Some {
        let index = l.walk.stage->At_index as int;
        crate::ops::lemma_standing(t, d, l.walk);
        let e = l.walk.current().entries[index];
        assert(s[crate::ops::place_of(t, d, l)] == e);
        assert(s.contains(e));
        assert(t.listed(d, e));
        t.lemma_listed_stored(d, e);
    } else {
        if t.contents(d).contains_key(l.key) {
            let e = t.lemma_stored_listed(d, l.key);
            let k = choose|k: int| 0 <= k < s.len() && s[k] == e;
            assert(t.key_of(d, s[k]) != l.key);
        }
    }
}

/// The split has placed the entries that its walk has gone past, by the hashes
/// of their keys.
pub open spec fn parting(t: Table, d: Disk, sp: SplitView) -> bool {
    let s = t.entries(d, t.next as int);
    let at = position(t, d, sp.walk);
    &&& sp.sound()
    &&& reading(t, d, sp.walk)
    &&& sp.walk.index == t.next
    &&& sp.walk.filter is None
    &&& sp.salt == t.header.salt
    &&& sp.level == t.level
    &&& sp.next == t.next
    &&& 0 <= at <= s.len()
    &&& sp.walk.stage is End ==> at == s.len()
    &&& sp.keep == s.take(at).filter(crate::ops::staying(t, d))
    &&& sp.moved == s.take(at).filter(crate::ops::leaving(t, d))
    &&& forall|x: BucketEntry| #[trigger]
        s.take(at).contains(x) <==> sp.keep.contains(x) || sp.moved.contains(x)
    &&& forall|x: BucketEntry| #[trigger]
        sp.keep.contains(x) ==> crate::split::stays(t.level, t.next, t.hash(t.key_of(d, x)))
    &&& forall|x: BucketEntry| #[trigger]
        sp.moved.contains(x) ==> !crate::split::stays(t.level, t.next, t.hash(t.key_of(d, x)))
    &&& crate::model::distinct(d.dat, t.ks(), sp.keep)
    &&& crate::model::distinct(d.dat, t.ks(), sp.moved)
}

/// A split starts well.
pub proof fn lemma_split_start(t: Table, d: Disk)
    requires
        t.well_formed(d),
        t.splitting().sound(),
    ensures
        parting(t, d, t.splitting()),
{
    t.lemma_level_bound();
    vstd::arithmetic::power2::lemma_pow2_pos(t.level as nat);
    assert(t.entries(d, t.next as int).take(0) =~= Seq::empty());
    reveal(Seq::filter);
}

/// A split in well formed files goes on well, and comes nearer to its end.
pub proof fn lemma_split_step(t: Table, d: Disk, sp: SplitView)
    requires
        t.well_formed(d),
        parting(t, d, sp),
        sp.walk.wanted() is Some,
    ensures
        available(d, sp.walk.wanted()->Some_0),
        sp.given(answer(d, sp.walk.wanted()->Some_0)) is Ok,
        ({
            let sp2 = sp.given(answer(d, sp.walk.wanted()->Some_0))->Ok_0;
            &&& sp2.sound() ==> parting(t, d, sp2)
            &&& nearer(t, d, sp.walk, sp2.walk)
        }),
{
    lemma_walk_step(t, d, sp.walk);
    let s = t.entries(d, t.next as int);
    let (w2, record) = sp.walk.given(answer(d, sp.walk.wanted()->Some_0))->Ok_0;
    let at = position(t, d, sp.walk);
    if position(t, d, w2) > at {
        assert(!crate::walk::of_interest(sp.walk.filter, s[at]));
    }
    if record is Some {
        lemma_walk_pass(t, d, w2);
        if position(t, d, w2.passed()) > at + 1 {
            assert(!crate::walk::of_interest(sp.walk.filter, s[at + 1]));
        }
        lemma_entry_placed(t, d, sp, s[at]);
    }
}

/// Placing the next entry keeps the placed ones as they should be.
proof fn lemma_entry_placed(t: Table, d: Disk, sp: SplitView, e: BucketEntry)
    requires
        t.well_formed(d),
        parting(t, d, sp),
        position(t, d, sp.walk) < t.entries(d, t.next as int).len(),
        e == t.entries(d, t.next as int)[position(t, d, sp.walk)],
    ensures
        ({
            let s = t.entries(d, t.next as int);
            let at = position(t, d, sp.walk);
            let sp2 = sp.with_entry(e, t.hash(t.key_of(d, e)));
            &&& sp2.keep == s.take(at + 1).filter(crate::ops::staying(t, d))
            &&& sp2.moved == s.take(at + 1).filter(crate::ops::leaving(t, d))
            &&& forall|x: BucketEntry| #[trigger]
                s.take(at + 1).contains(x) <==> sp2.keep.contains(x) || sp2.moved.contains(x)
            &&& forall|x: BucketEntry| #[trigger]
                sp2.keep.contains(x) ==> crate::split::stays(
                    t.level,
                    t.next,
                    t.hash(t.key_of(d, x)),
                )
            &&& forall|x: BucketEntry| #[trigger]
                sp2.moved.contains(x) ==> !crate::split::stays(
                    t.level,
                    t.next,
                    t.hash(t.key_of(d, x)),
                )
            &&& crate::model::distinct(d.dat, t.ks(), sp2.keep)
            &&& crate::model::distinct(d.dat, t.ks(), sp2.moved)
        }),
{
    let s = t.entries(d, t.next as int);
    let at = position(t, d, sp.walk);
    let sp2 = sp.with_entry(e, t.hash(t.key_of(d, e)));
    vstd::arithmetic::power2::lemma_pow2_pos(t.level as nat);
    assert(t.bucket_ok(d, t.next as int));
    let prefix = s.take(at);
    assert(s.take(at + 1) =~= prefix.insert(at, e));
    assert(s.take(at + 1).drop_last() =~= prefix);
    reveal(Seq::filter);
    assert forall|x: BucketEntry| #[trigger]
        s.take(at + 1).contains(x) <==> prefix.contains(x) || x == e by {
        crate::chain::lemma_insert_lists(prefix, at, e, x);
    }
    assert forall|x: BucketEntry| #[trigger] prefix.contains(x) implies t.key_of(d, x) != t.key_of(
        d,
        e,
    ) by {
        let k = choose|k: int| 0 <= k < at && prefix[k] == x;
        assert(s[k] == x);
        assert(crate::model::record_key(d.dat, t.ks(), s[k].offset as int)
            != crate::model::record_key(d.dat, t.ks(), s[at].offset as int));
    }
    if crate::split::stays(t.level, t.next, t.hash(t.key_of(d, e))) {
        assert forall|x: BucketEntry| #[trigger] sp.keep.contains(x) implies t.key_of(d, x)
            != t.key_of(d, e) by {
            assert(prefix.contains(x));
        }
        lemma_pushed(t, d, sp.keep, e);
        assert(sp2.keep =~= sp.keep.insert(sp.keep.len() as int, e));
        assert forall|x: BucketEntry| #[trigger]
            sp2.keep.contains(x) <==> sp.keep.contains(x) || x == e by {
            crate::chain::lemma_insert_lists(sp.keep, sp.keep.len() as int, e, x);
        }
    } else {
        assert forall|x: BucketEntry| #[trigger] sp.moved.contains(x) implies t.key_of(d, x)
            != t.key_of(d, e) by {
            assert(prefix.contains(x));
        }
        lemma_pushed(t, d, sp.moved, e);
        assert(sp2.moved =~= sp.moved.insert(sp.moved.len() as int, e));
        assert forall|x: BucketEntry| #[trigger]
            sp2.moved.contains(x) <==> sp.moved.contains(x) || x == e by {
            crate::chain::lemma_insert_lists(sp.moved, sp.moved.len() as int, e, x);
        }
    }
}

/// Entries stay distinct when one with another key is added at the end.
proof fn lemma_pushed(t: Table, d: Disk, s: Seq<BucketEntry>, e: BucketEntry)
    requires
        crate::model::distinct(d.dat, t.ks(), s),
        forall|x: BucketEntry| #[trigger] s.contains(x) ==> t.key_of(d, x) != t.key_of(d, e),
    ensures
        crate::model::distinct(d.dat, t.ks(), s.push(e)),
{
    crate::chain::lemma_insert_distinct(d.dat, t.ks(), s, s.len() as int, e);
    assert(s.push(e) =~= s.insert(s.len() as int, e));
}

/// What a split has done when it is over.
pub proof fn lemma_split_over(t: Table, d: Disk, sp: SplitView)
    requires
        t.well_formed(d),
        parting(t, d, sp),
        sp.walk.wanted() is None,
    ensures
        crate::ops::parted(t, d, sp),
{
    let s = t.entries(d, t.next as int);
    assert(s.take(s.len() as int) =~= s);
}

} // verus!

//! How a bucket's chain changes when the bucket takes an entry, or when a
//! spill record is written over.

use crate::bucket::{BucketEntry, BucketView};
use crate::format::{KeyHeader, DAT_HEADER_SIZE, LIMIT48, SPILL_HEADER_SIZE};
use vstd::prelude::*;

verus! {

/// All entries of a bucket: its own and those of its chain.
pub open spec fn whole(dat: Seq<u8>, bs: int, bucket: BucketView) -> Seq<BucketEntry> {
    bucket.entries + crate::model::chained(dat, bs, bucket.spill)
}

/// The entries of the spill records from `spill` up to the one at `a`.
pub open spec fn before(dat: Seq<u8>, bs: int, spill: u64, a: u64) -> Seq<BucketEntry>
    decreases spill,
{
    if spill == 0 || spill == a {
        Seq::empty()
    } else {
        match crate::model::spill_page(dat, bs, spill as int) {
            Some(bucket) => if bucket.spill < spill {
                bucket.entries + before(dat, bs, bucket.spill, a)
            } else {
                bucket.entries
            },
            None => Seq::empty(),
        }
    }
}

/// A chain's entries are those before a spill record, its own, and those after
/// it.
pub proof fn lemma_before(dat: Seq<u8>, bs: int, spill: u64, a: u64)
    requires
        bs >= 0,
        crate::model::linked(dat, bs, spill),
        crate::model::pages(dat, bs, spill).contains(a),
    ensures
        crate::model::spill_page(dat, bs, a as int) is Some,
        ({
            let bucket = crate::model::spill_page(dat, bs, a as int)->Some_0;
            &&& crate::model::linked(dat, bs, bucket.spill)
            &&& crate::model::chained(dat, bs, spill) == before(dat, bs, spill, a) + whole(
                dat,
                bs,
                bucket,
            )
        }),
    decreases spill,
{
    crate::model::lemma_pages(dat, bs, spill);
    let first = crate::model::spill_page(dat, bs, spill as int)->Some_0;
    if spill != a {
        let all = crate::model::pages(dat, bs, spill);
        let rest = crate::model::pages(dat, bs, first.spill);
        let k = choose|k: int| 0 <= k < all.len() && all[k] == a;
        assert(rest[k - 1] == a);
        lemma_before(dat, bs, first.spill, a);
        let bucket = crate::model::spill_page(dat, bs, a as int)->Some_0;
        assert(crate::model::chained(dat, bs, spill) =~= before(dat, bs, spill, a) + whole(
            dat,
            bs,
            bucket,
        ));
    } else {
        assert(crate::model::chained(dat, bs, spill) =~= before(dat, bs, spill, a) + whole(
            dat,
            bs,
            first,
        ));
    }
}

/// Writing another bucket over the one in a spill record changes the chain's
/// entries in their place.
pub proof fn lemma_chain_patched(
    dat: Seq<u8>,
    dat2: Seq<u8>,
    bs: int,
    spill: u64,
    a: u64,
    changed: BucketView,
)
    requires
        bs >= 0,
        crate::model::linked(dat, bs, spill),
        crate::model::pages(dat, bs, spill).contains(a),
        crate::evolve::kept(dat, dat2, a as int, SPILL_HEADER_SIZE + bs),
        crate::model::spill_page(dat2, bs, a as int) == Some(changed),
        crate::model::spill_page(dat, bs, a as int) matches Some(bucket) && changed.spill
            == bucket.spill,
    ensures
        crate::model::linked(dat2, bs, spill),
        crate::model::pages(dat2, bs, spill) == crate::model::pages(dat, bs, spill),
        crate::model::chained(dat2, bs, spill) == before(dat, bs, spill, a) + changed.entries
            + crate::model::chained(dat, bs, changed.spill),
    decreases spill,
{
    crate::model::lemma_pages(dat, bs, spill);
    let first = crate::model::spill_page(dat, bs, spill as int)->Some_0;
    let all = crate::model::pages(dat, bs, spill);
    let rest = crate::model::pages(dat, bs, first.spill);
    if spill == a {
        assert forall|p: u64, x: int|
            #![trigger rest.contains(p), dat2[x]]
            rest.contains(p) && p <= x < p + SPILL_HEADER_SIZE + bs implies dat[x] == dat2[x] by {
            crate::model::lemma_pages(dat, bs, first.spill);
        }
        crate::model::lemma_chain_same(dat, dat2, bs, first.spill);
        assert(crate::model::chained(dat2, bs, spill) =~= before(dat, bs, spill, a)
            + changed.entries + crate::model::chained(dat, bs, changed.spill));
    } else {
        let k = choose|k: int| 0 <= k < all.len() && all[k] == a;
        assert(rest[k - 1] == a);
        crate::model::lemma_page_same(dat, dat2, bs, spill as int);
        lemma_chain_patched(dat, dat2, bs, first.spill, a, changed);
        assert(crate::model::chained(dat2, bs, spill) =~= before(dat, bs, spill, a)
            + changed.entries + crate::model::chained(dat, bs, changed.spill));
    }
}

/// A spill record holds the bucket that was moved to it.
pub proof fn lemma_spilled_read_back(header: KeyHeader, dat: Seq<u8>, bucket: BucketView, at: int)
    requires
        bucket.fits(header.block_size as int),
        DAT_HEADER_SIZE <= at,
        at + crate::write::spill_size(header) <= dat.len(),
        dat.subrange(at, at + crate::write::spill_size(header)) == crate::write::spill_record(
            bucket,
            header.block_size as int,
        ),
    ensures
        crate::model::spill_page(dat, header.block_size as int, at) == Some(bucket),
{
    broadcast use crate::codec::lemma_be_bytes_len;

    let bs = header.block_size as int;
    let record = crate::write::spill_record(bucket, bs);
    let own = dat.subrange(at, at + crate::write::spill_size(header));
    crate::bucket::law_bucket_read_back(bucket, bs);
    assert(dat.subrange(at + 6, at + 8) =~= own.subrange(6, 8));
    assert(own.subrange(6, 8) =~= crate::codec::be_bytes(bs as nat, 2));
    assert(dat.subrange(at + 8, at + 8 + bs) =~= own.subrange(8, 8 + bs));
    assert(own.subrange(8, 8 + bs) =~= bucket.encoding(bs));
    crate::codec::lemma_radix_values();
    crate::codec::law_integer_read_back(bs as nat, 2);
}

/// A chain is read the same after the data file has grown.
pub proof fn lemma_chain_grown(dat: Seq<u8>, dat2: Seq<u8>, bs: int, spill: u64)
    requires
        bs >= 0,
        crate::model::linked(dat, bs, spill),
        crate::evolve::kept(dat, dat2, 0, 0),
    ensures
        crate::model::linked(dat2, bs, spill),
        crate::model::chained(dat2, bs, spill) == crate::model::chained(dat, bs, spill),
        crate::model::pages(dat2, bs, spill) == crate::model::pages(dat, bs, spill),
{
    crate::model::lemma_pages(dat, bs, spill);
    crate::model::lemma_chain_same(dat, dat2, bs, spill);
}

/// A bucket that takes an entry lists what it listed, and the entry.
pub proof fn lemma_placed(header: KeyHeader, dat: Seq<u8>, bucket: BucketView, entry: BucketEntry) -> (at:
    int)
    requires
        header.capacity() >= 1,
        bucket.fits(header.block_size as int),
        entry.fits(),
        crate::model::linked(dat, header.block_size as int, bucket.spill),
        DAT_HEADER_SIZE <= dat.len(),
        bucket.entries.len() >= header.capacity() ==> dat.len() < LIMIT48,
    ensures
        ({
            let bs = header.block_size as int;
            let (after, more) = crate::write::placed(header, bucket, entry, dat.len() as int);
            let old_whole = whole(dat, bs, bucket);
            &&& after.fits(bs)
            &&& more.len() <= crate::write::spill_size(header)
            &&& crate::model::linked(dat + more, bs, after.spill)
            &&& 0 <= at <= old_whole.len()
            &&& whole(dat + more, bs, after) == old_whole.insert(at, entry)
            &&& forall|p: u64| #[trigger]
                crate::model::pages(dat + more, bs, after.spill).contains(p)
                    ==> crate::model::pages(dat, bs, bucket.spill).contains(p) || p == dat.len() && p
                    + crate::write::spill_size(header) == (dat + more).len()
        }),
{
    let bs = header.block_size as int;
    let (after, more) = crate::write::placed(header, bucket, entry, dat.len() as int);
    let dat2 = dat + more;
    let old_whole = whole(dat, bs, bucket);
    if bucket.entries.len() >= header.capacity() {
        let end = dat.len() as u64;
        let emptied = BucketView { spill: end, entries: Seq::empty() };
        crate::write::lemma_with_entry_fits(header, emptied, entry);
        crate::bucket::law_bucket_read_back(bucket, bs);
        broadcast use crate::codec::lemma_be_bytes_len;

        assert(dat2.subrange(dat.len() as int, dat.len() + crate::write::spill_size(header))
            =~= more);
        lemma_spilled_read_back(header, dat2, bucket, dat.len() as int);
        crate::model::lemma_pages(dat, bs, bucket.spill);
        lemma_chain_grown(dat, dat2, bs, bucket.spill);
        assert(after.entries =~= seq![entry]);
        assert(crate::model::chained(dat2, bs, end) =~= old_whole);
        assert(whole(dat2, bs, after) =~= old_whole.insert(0, entry));
        let all = crate::model::pages(dat2, bs, end);
        assert forall|p: u64| #[trigger] all.contains(p) implies crate::model::pages(
            dat,
            bs,
            bucket.spill,
        ).contains(p) || p == dat.len() && p + crate::write::spill_size(header) == dat2.len() by {
            let k = choose|k: int| 0 <= k < all.len() && all[k] == p;
            if k > 0 {
                assert(crate::model::pages(dat, bs, bucket.spill)[k - 1] == p);
            }
        }
        0
    } else {
        crate::write::lemma_with_entry_fits(header, bucket, entry);
        crate::bucket::lemma_slot_range(bucket.entries, entry.hash);
        assert(dat2 =~= dat);
        let at = crate::bucket::slot(bucket.entries, entry.hash);
        assert(whole(dat2, bs, after) =~= old_whole.insert(at, entry));
        at
    }
}

/// An inserted entry is listed along with the others.
pub proof fn lemma_insert_lists(s: Seq<BucketEntry>, at: int, e: BucketEntry, x: BucketEntry)
    requires
        0 <= at <= s.len(),
    ensures
        s.insert(at, e).contains(x) <==> s.contains(x) || x == e,
{
    let after = s.insert(at, e);
    assert(after[at] == e);
    if s.contains(x) {
        let k = choose|k: int| 0 <= k < s.len() && s[k] == x;
        if k < at {
            assert(after[k] == x);
        } else {
            assert(after[k + 1] == x);
        }
    }
    if after.contains(x) && x != e {
        let k = choose|k: int| 0 <= k < after.len() && after[k] == x;
        if k < at {
            assert(s[k] == x);
        } else {
            assert(s[k - 1] == x);
        }
    }
}

/// Entries stay distinct when one with another key is inserted.
pub proof fn lemma_insert_distinct(
    dat: Seq<u8>,
    ks: int,
    s: Seq<BucketEntry>,
    at: int,
    e: BucketEntry,
)
    requires
        0 <= at <= s.len(),
        crate::model::distinct(dat, ks, s),
        forall|x: BucketEntry| #[trigger]
            s.contains(x) ==> crate::model::record_key(dat, ks, x.offset as int)
                != crate::model::record_key(dat, ks, e.offset as int),
    ensures
        crate::model::distinct(dat, ks, s.insert(at, e)),
{
    let after = s.insert(at, e);
    assert forall|a: int, b: int| 0 <= a < b < after.len() implies crate::model::record_key(
        dat,
        ks,
        (#[trigger] after[a]).offset as int,
    ) != crate::model::record_key(dat, ks, (#[trigger] after[b]).offset as int) by {
        let a2 = if a < at {
            a
        } else {
            a - 1
        };
        let b2 = if b < at {
            b
        } else {
            b - 1
        };
        if a == at {
            assert(after[b] == s[b2]);
            assert(s.contains(s[b2]));
        } else if b == at {
            assert(after[a] == s[a2]);
            assert(s.contains(s[a2]));
        } else {
            assert(after[a] == s[a2] && after[b] == s[b2]);
        }
    }
}

/// A changed entry is listed in place of the one that it replaces.
pub proof fn lemma_update_lists(
    dat: Seq<u8>,
    ks: int,
    s: Seq<BucketEntry>,
    at: int,
    e: BucketEntry,
    x: BucketEntry,
)
    requires
        0 <= at < s.len(),
        crate::model::distinct(dat, ks, s),
    ensures
        s.update(at, e).contains(x) <==> s.contains(x) && x != s[at] || x == e,
{
    let after = s.update(at, e);
    assert(after[at] == e);
    if s.contains(x) && x != s[at] {
        let k = choose|k: int| 0 <= k < s.len() && s[k] == x;
        assert(after[k] == x);
    }
    if after.contains(x) && x != e {
        let k = choose|k: int| 0 <= k < after.len() && after[k] == x;
        assert(s[k] == x);
        if k < at {
            assert(s[k] != s[at]);
        } else {
            assert(s[at] != s[k]);
        }
    }
}

/// Entries stay distinct when one is changed to another of the same key.
pub proof fn lemma_update_distinct(
    dat: Seq<u8>,
    ks: int,
    s: Seq<BucketEntry>,
    at: int,
    e: BucketEntry,
)
    requires
        0 <= at < s.len(),
        crate::model::distinct(dat, ks, s),
        crate::model::record_key(dat, ks, e.offset as int) == crate::model::record_key(
            dat,
            ks,
            s[at].offset as int,
        ),
    ensures
        crate::model::distinct(dat, ks, s.update(at, e)),
{
    let after = s.update(at, e);
    assert forall|a: int, b: int| 0 <= a < b < after.len() implies crate::model::record_key(
        dat,
        ks,
        (#[trigger] after[a]).offset as int,
    ) != crate::model::record_key(dat, ks, (#[trigger] after[b]).offset as int) by {
        assert(crate::model::record_key(dat, ks, s[a].offset as int) != crate::model::record_key(
            dat,
            ks,
            s[b].offset as int,
        ));
    }
}

/// A removed entry is no longer listed, and every other is.
pub proof fn lemma_remove_lists(
    dat: Seq<u8>,
    ks: int,
    s: Seq<BucketEntry>,
    at: int,
    x: BucketEntry,
)
    requires
        0 <= at < s.len(),
        crate::model::distinct(dat, ks, s),
    ensures
        s.remove(at).contains(x) <==> s.contains(x) && x != s[at],
{
    let after = s.remove(at);
    if s.contains(x) && x != s[at] {
        let k = choose|k: int| 0 <= k < s.len() && s[k] == x;
        if k < at {
            assert(after[k] == x);
        } else {
            assert(after[k - 1] == x);
        }
    }
    if after.contains(x) {
        let k = choose|k: int| 0 <= k < after.len() && after[k] == x;
        if k < at {
            assert(s[k] == x);
            assert(s[k] != s[at]);
        } else {
            assert(s[k + 1] == x);
            assert(s[at] != s[k + 1]);
        }
    }
}

/// Entries stay distinct when one is removed.
pub proof fn lemma_remove_distinct(dat: Seq<u8>, ks: int, s: Seq<BucketEntry>, at: int)
    requires
        0 <= at < s.len(),
        crate::model::distinct(dat, ks, s),
    ensures
        crate::model::distinct(dat, ks, s.remove(at)),
{
    let after = s.remove(at);
    assert forall|a: int, b: int| 0 <= a < b < after.len() implies crate::model::record_key(
        dat,
        ks,
        (#[trigger] after[a]).offset as int,
    ) != crate::model::record_key(dat, ks, (#[trigger] after[b]).offset as int) by {
        let a2 = if a < at {
            a
        } else {
            a + 1
        };
        let b2 = if b < at {
            b
        } else {
            b + 1
        };
        assert(after[a] == s[a2] && after[b] == s[b2]);
    }
}

/// A bucket that gathers entries lists exactly them.
pub proof fn lemma_gathered_chain(
    header: KeyHeader,
    dat: Seq<u8>,
    entries: Seq<BucketEntry>,
    source: Seq<u8>,
    ks: int,
)
    requires
        header.capacity() >= 1,
        DAT_HEADER_SIZE <= dat.len(),
        crate::write::room_for(
            header,
            dat.len() as int,
            crate::write::spills(header, entries.len() as int),
        ),
        forall|i: int| 0 <= i < entries.len() ==> (#[trigger] entries[i]).fits(),
        crate::model::distinct(source, ks, entries),
    ensures
        ({
            let bs = header.block_size as int;
            let (bucket, tail) = crate::write::gathered(header, entries, dat.len() as int);
            &&& bucket.fits(bs)
            &&& crate::model::linked(dat + tail, bs, bucket.spill)
            &&& forall|x: BucketEntry| #[trigger]
                whole(dat + tail, bs, bucket).contains(x) <==> entries.contains(x)
            &&& crate::model::distinct(source, ks, whole(dat + tail, bs, bucket))
            &&& forall|p: u64| #[trigger]
                crate::model::pages(dat + tail, bs, bucket.spill).contains(p) ==> p >= dat.len()
        }),
    decreases entries.len(),
{
    let bs = header.block_size as int;
    let size = crate::write::spill_size(header);
    let end = dat.len() as int;
    crate::write::lemma_gathered(header, entries, end);
    let (bucket, tail) = crate::write::gathered(header, entries, end);
    if entries.len() == 0 {
        assert(whole(dat + tail, bs, bucket) =~= Seq::empty());
    } else {
        let n = entries.len() as int;
        let rest = entries.drop_last();
        let e = entries.last();
        let less = crate::write::spills(header, n - 1);
        let count = crate::write::spills(header, n);
        crate::write::lemma_spills_step(header.capacity(), n);
        assert((less - 1) * size <= (count - 1) * size) by (nonlinear_arith)
            requires
                less <= count,
                size >= 0,
        ;
        assert forall|i: int| 0 <= i < rest.len() implies (#[trigger] rest[i]).fits() by {
            assert(rest[i] == entries[i]);
        }
        assert(crate::model::distinct(source, ks, rest)) by {
            assert forall|a: int, b: int| 0 <= a < b < rest.len() implies crate::model::record_key(
                source,
                ks,
                (#[trigger] rest[a]).offset as int,
            ) != crate::model::record_key(source, ks, (#[trigger] rest[b]).offset as int) by {
                assert(rest[a] == entries[a] && rest[b] == entries[b]);
            }
        }
        assert(entries[n - 1].fits());
        lemma_gathered_chain(header, dat, rest, source, ks);
        crate::write::lemma_gathered(header, rest, end);
        let (earlier, first) = crate::write::gathered(header, rest, end);
        let dat1 = dat + first;
        if earlier.entries.len() >= header.capacity() {
            assert(count == less + 1);
        }
        let at = lemma_placed(header, dat1, earlier, e);
        let more = crate::write::placed(header, earlier, e, dat1.len() as int).1;
        assert(dat + tail =~= dat1 + more);
        let old_whole = whole(dat1, bs, earlier);
        assert forall|x: BucketEntry| #[trigger]
            whole(dat + tail, bs, bucket).contains(x) <==> entries.contains(x) by {
            lemma_insert_lists(old_whole, at, e, x);
            if entries.contains(x) {
                let k = choose|k: int| 0 <= k < n && entries[k] == x;
                if k < n - 1 {
                    assert(rest[k] == x);
                    assert(rest.contains(x));
                }
            }
            if rest.contains(x) {
                let k = choose|k: int| 0 <= k < rest.len() && rest[k] == x;
                assert(entries[k] == x);
            }
            assert(entries[n - 1] == e);
        }
        assert forall|x: BucketEntry| #[trigger]
            old_whole.contains(x) implies crate::model::record_key(source, ks, x.offset as int)
            != crate::model::record_key(source, ks, e.offset as int) by {
            assert(rest.contains(x));
            let k = choose|k: int| 0 <= k < rest.len() && rest[k] == x;
            assert(entries[k] == x && entries[n - 1] == e);
        }
        lemma_insert_distinct(source, ks, old_whole, at, e);
    }
}

} // verus!

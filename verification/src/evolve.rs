//! Which changes to the files keep them well formed, and what they store then.

use crate::bucket::BucketEntry;
use crate::format::{DAT_HEADER_SIZE, MAX_DAT_SIZE, SPILL_HEADER_SIZE};
use crate::model::Disk;
use crate::table::Table;
use vstd::prelude::*;

verus! {

/// The data file has only grown, but for `len` bytes at `a`.
pub open spec fn kept(dat: Seq<u8>, dat2: Seq<u8>, a: int, len: int) -> bool {
    &&& dat.len() <= dat2.len()
    &&& forall|x: int|
        0 <= x < dat.len() && !(a <= x < a + len) ==> dat[x] == #[trigger] dat2[x]
}

/// An entry that some bucket listed and that now belongs in bucket `j`.
pub open spec fn inherited(t: Table, d: Disk, t2: Table, j: int, e: BucketEntry) -> bool {
    t.listed(d, e) && t2.index(t2.hash(t.key_of(d, e))) == j
}

/// An entry of a record that was appended.
pub open spec fn appended(d: Disk, t2: Table, d2: Disk, j: int, e: BucketEntry) -> bool {
    e.offset >= d.dat.len() && t2.entry_ok(d2, j, e)
}

/// The files `d` of table `t` have become the files `d2` of table `t2`: some
/// buckets were written anew, at most one spill record was written over, and
/// the data file grew.
#[verifier::opaque]
pub open spec fn rebuilt(
    t: Table,
    d: Disk,
    t2: Table,
    d2: Disk,
    touched: Set<int>,
    a: u64,
    len: int,
) -> bool {
    let n = t.header.bucket_count as int;
    let n2 = t2.header.bucket_count as int;
    &&& t2.regular()
    &&& t2.header.block_size == t.header.block_size
    &&& t2.header.key_size == t.header.key_size
    &&& t2.header.salt == t.header.salt
    &&& n <= n2
    &&& d2.key.len() == (n2 + 1) * t.header.block_size
    &&& d2.key.subrange(0, t.bs()) == t2.header.block()
    &&& kept(d.dat, d2.dat, a as int, len)
    &&& d2.dat.len() <= MAX_DAT_SIZE
    &&& len == 0 || len == SPILL_HEADER_SIZE + t.bs() && exists|i: int|
        0 <= i < n && touched.contains(i) && #[trigger] t.pages(d, i).contains(a)
    // the other buckets
    &&& forall|j: int|
        0 <= j < n2 && !#[trigger] touched.contains(j) ==> {
            &&& j < n
            &&& t.block_of(d2, j) == t.block_of(d, j)
        }
    &&& forall|j: int, hash: u64|
        0 <= j < n && !#[trigger] touched.contains(j) && #[trigger] t.index(hash) == j ==> t2.index(
            hash,
        ) == j
    // the buckets written anew
    &&& forall|j: int|
        0 <= j < n2 && #[trigger] touched.contains(j) ==> {
            &&& t2.home(d2, j) is Some
            &&& crate::model::linked(d2.dat, t.bs(), t2.home(d2, j)->Some_0.spill)
            &&& crate::model::distinct(d2.dat, t.ks(), t2.entries(d2, j))
        }
    &&& forall|j: int, p: u64|
        0 <= j < n2 && touched.contains(j) && #[trigger] t2.pages(d2, j).contains(p) ==> j < n
            && t.pages(d, j).contains(p) || p >= d.dat.len()
    &&& forall|j: int, e: BucketEntry|
        0 <= j < n2 && touched.contains(j) && #[trigger] t2.entries(d2, j).contains(e)
            ==> inherited(t, d, t2, j, e) || appended(d, t2, d2, j, e)
    &&& forall|i: int, j: int, p: u64, q: u64|
        0 <= i < n2 && 0 <= j < n2 && i != j && touched.contains(i) && touched.contains(j)
            && #[trigger] t2.pages(d2, i).contains(p) && #[trigger] t2.pages(d2, j).contains(q)
            && p >= d.dat.len() && q >= d.dat.len() ==> t.apart(p, q)
    &&& forall|i: int, j: int, p: u64, e: BucketEntry|
        0 <= i < n2 && 0 <= j < n2 && touched.contains(i) && touched.contains(j)
            && #[trigger] t2.pages(d2, i).contains(p) && #[trigger] t2.entries(d2, j).contains(e)
            && p >= d.dat.len() && e.offset >= d.dat.len() ==> t.clear(d2, p, e)
}

/// The bytes of the data file that were written over are those of a spill
/// record.
pub open spec fn spared(t: Table, d: Disk, a: u64, len: int) -> bool {
    len == 0 || len == SPILL_HEADER_SIZE + t.bs() && exists|i: int|
        0 <= i < t.header.bucket_count && #[trigger] t.pages(d, i).contains(a)
}

/// The record of a listed entry is untouched.
pub proof fn lemma_listed_spared(t: Table, d: Disk, d2: Disk, a: u64, len: int, e: BucketEntry)
    requires
        t.well_formed(d),
        kept(d.dat, d2.dat, a as int, len),
        spared(t, d, a, len),
        t.listed(d, e),
    ensures
        t.key_of(d2, e) == t.key_of(d, e),
        t.value_of(d2, e) == t.value_of(d, e),
        crate::model::record_ok(d2.dat, t.ks(), e.offset as int),
        crate::model::record_total(d2.dat, e.offset as int) == crate::model::record_total(
            d.dat,
            e.offset as int,
        ),
        crate::model::record_end(d.dat, e.offset as int) <= d.dat.len(),
        e.size == crate::model::record_total(d.dat, e.offset as int) - t.ks(),
        e.hash == crate::hash::upper48(t.hash(t.key_of(d, e))),
{
    let i = choose|i: int|
        0 <= i < t.header.bucket_count && #[trigger] t.entries(d, i).contains(e);
    assert(t.bucket_ok(d, i));
    assert(t.entry_ok(d, i, e));
    if len != 0 {
        let k = choose|k: int|
            0 <= k < t.header.bucket_count && #[trigger] t.pages(d, k).contains(a);
        assert(t.clear(d, a, e));
    }
    assert forall|x: int|
        e.offset <= x < crate::model::record_end(d.dat, e.offset as int) implies d.dat[x]
        == #[trigger] d2.dat[x] by {}
    crate::model::lemma_record_same(d.dat, d2.dat, t.ks(), e.offset as int);
}

/// The entries of a bucket lead to as many keys as before.
pub proof fn lemma_distinct_spared(t: Table, d: Disk, d2: Disk, a: u64, len: int, i: int)
    requires
        t.well_formed(d),
        kept(d.dat, d2.dat, a as int, len),
        spared(t, d, a, len),
        0 <= i < t.header.bucket_count,
    ensures
        crate::model::distinct(d2.dat, t.ks(), t.entries(d, i)),
{
    assert(t.bucket_ok(d, i));
    let s = t.entries(d, i);
    assert forall|x: int, y: int| 0 <= x < y < s.len() implies crate::model::record_key(
        d2.dat,
        t.ks(),
        (#[trigger] s[x]).offset as int,
    ) != crate::model::record_key(d2.dat, t.ks(), (#[trigger] s[y]).offset as int) by {
        assert(s.contains(s[x]) && s.contains(s[y]));
        assert(t.listed(d, s[x]) && t.listed(d, s[y]));
        lemma_listed_spared(t, d, d2, a, len, s[x]);
        lemma_listed_spared(t, d, d2, a, len, s[y]);
    }
}

/// The record of a listed entry is untouched when the files are rebuilt.
pub proof fn lemma_listed_kept(
    t: Table,
    d: Disk,
    t2: Table,
    d2: Disk,
    touched: Set<int>,
    a: u64,
    len: int,
    e: BucketEntry,
)
    requires
        t.well_formed(d),
        rebuilt(t, d, t2, d2, touched, a, len),
        t.listed(d, e),
    ensures
        t.key_of(d2, e) == t.key_of(d, e),
        t.value_of(d2, e) == t.value_of(d, e),
        crate::model::record_ok(d2.dat, t.ks(), e.offset as int),
        crate::model::record_total(d2.dat, e.offset as int) == crate::model::record_total(
            d.dat,
            e.offset as int,
        ),
        crate::model::record_end(d.dat, e.offset as int) <= d.dat.len(),
        e.size == crate::model::record_total(d.dat, e.offset as int) - t.ks(),
        e.hash == crate::hash::upper48(t.hash(t.key_of(d, e))),
{
    reveal(rebuilt);
    lemma_listed_spared(t, d, d2, a, len, e);
}

/// A bucket that was not written anew lists what it listed.
pub proof fn lemma_untouched(
    t: Table,
    d: Disk,
    t2: Table,
    d2: Disk,
    touched: Set<int>,
    a: u64,
    len: int,
    j: int,
)
    requires
        t.well_formed(d),
        rebuilt(t, d, t2, d2, touched, a, len),
        0 <= j < t2.header.bucket_count,
        !touched.contains(j),
    ensures
        j < t.header.bucket_count,
        t2.home(d2, j) == t.home(d, j),
        t2.entries(d2, j) == t.entries(d, j),
        t2.pages(d2, j) == t.pages(d, j),
        crate::model::linked(d2.dat, t.bs(), t.home(d, j)->Some_0.spill),
{
    reveal(rebuilt);
    assert(t.bucket_ok(d, j));
    assert(t2.block_of(d2, j) == t.block_of(d2, j));
    let spill = t.home(d, j)->Some_0.spill;
    crate::model::lemma_pages(d.dat, t.bs(), spill);
    assert forall|p: u64, x: int|
        #![trigger crate::model::pages(d.dat, t.bs(), spill).contains(p), d2.dat[x]]
        crate::model::pages(d.dat, t.bs(), spill).contains(p) && p <= x < p + SPILL_HEADER_SIZE
            + t.bs() implies d.dat[x] == d2.dat[x] by {
        assert(t.pages(d, j).contains(p));
        if len != 0 {
            let k = choose|k: int|
                0 <= k < t.header.bucket_count && touched.contains(k) && #[trigger] t.pages(
                    d,
                    k,
                ).contains(a);
            assert(t.apart(p, a));
        }
    }
    crate::model::lemma_chain_same(d.dat, d2.dat, t.bs(), spill);
}

/// Every spill record of well formed files lies in the data file.
pub proof fn lemma_page_inside(t: Table, d: Disk, i: int, p: u64)
    requires
        t.well_formed(d),
        0 <= i < t.header.bucket_count,
        t.pages(d, i).contains(p),
    ensures
        p + SPILL_HEADER_SIZE + t.bs() <= d.dat.len(),
        DAT_HEADER_SIZE <= p,
{
    assert(t.bucket_ok(d, i));
    crate::model::lemma_pages(d.dat, t.bs(), t.home(d, i)->Some_0.spill);
}

/// Files that are rebuilt are well formed.
pub proof fn lemma_rebuilt(
    t: Table,
    d: Disk,
    t2: Table,
    d2: Disk,
    touched: Set<int>,
    a: u64,
    len: int,
)
    requires
        t.well_formed(d),
        rebuilt(t, d, t2, d2, touched, a, len),
    ensures
        t2.well_formed(d2),
        t2.header.key_size == t.header.key_size,
        t2.header.block_size == t.header.block_size,
        t2.header.salt == t.header.salt,
{
    reveal(rebuilt);
    let n2 = t2.header.bucket_count as int;
    let size = SPILL_HEADER_SIZE + t.bs();
    assert forall|j: int| 0 <= j < n2 implies #[trigger] t2.bucket_ok(d2, j) by {
        if touched.contains(j) {
            assert forall|e: BucketEntry| #[trigger]
                t2.entries(d2, j).contains(e) implies t2.entry_ok(d2, j, e) by {
                if inherited(t, d, t2, j, e) {
                    lemma_listed_kept(t, d, t2, d2, touched, a, len, e);
                }
            }
        } else {
            lemma_untouched(t, d, t2, d2, touched, a, len, j);
            assert(t.bucket_ok(d, j));
            assert forall|e: BucketEntry| #[trigger]
                t2.entries(d2, j).contains(e) implies t2.entry_ok(d2, j, e) by {
                assert(t.entries(d, j).contains(e));
                assert(t.listed(d, e));
                assert(t.entry_ok(d, j, e));
                lemma_listed_kept(t, d, t2, d2, touched, a, len, e);
            }
            lemma_distinct_spared(t, d, d2, a, len, j);
        }
    }
    assert forall|i: int, p: u64|
        0 <= i < n2 && #[trigger] t2.pages(d2, i).contains(p) implies i < t.header.bucket_count
        && t.pages(d, i).contains(p) && p + size <= d.dat.len() || touched.contains(i) && p
        >= d.dat.len() by {
        if !touched.contains(i) {
            lemma_untouched(t, d, t2, d2, touched, a, len, i);
        }
        if i < t.header.bucket_count && t.pages(d, i).contains(p) {
            lemma_page_inside(t, d, i, p);
        }
    }
    assert forall|i: int, j: int, p: u64, q: u64|
        0 <= i < n2 && 0 <= j < n2 && i != j && #[trigger] t2.pages(d2, i).contains(p)
            && #[trigger] t2.pages(d2, j).contains(q) implies t2.apart(p, q) by {
        if p < d.dat.len() && q < d.dat.len() {
            assert(t.pages(d, i).contains(p) && t.pages(d, j).contains(q));
            assert(t.apart(p, q));
        } else if p >= d.dat.len() && q >= d.dat.len() {
            assert(touched.contains(i) && touched.contains(j));
            assert(t.apart(p, q));
        }
    }
    assert forall|i: int, j: int, p: u64, e: BucketEntry|
        0 <= i < n2 && 0 <= j < n2 && #[trigger] t2.pages(d2, i).contains(p)
            && #[trigger] t2.entries(d2, j).contains(e) implies t2.clear(d2, p, e) by {
        if !touched.contains(j) {
            lemma_untouched(t, d, t2, d2, touched, a, len, j);
            assert(t.entries(d, j).contains(e));
            assert(t.listed(d, e));
        }
        if t.listed(d, e) {
            lemma_listed_kept(t, d, t2, d2, touched, a, len, e);
            if p < d.dat.len() {
                let k = choose|k: int|
                    0 <= k < t.header.bucket_count && #[trigger] t.entries(d, k).contains(e);
                assert(t.pages(d, i).contains(p));
                assert(t.clear(d, p, e));
            }
        } else {
            assert(appended(d, t2, d2, j, e));
            if p >= d.dat.len() {
                assert(t.clear(d2, p, e));
            }
        }
    }
}

/// What the rebuilt files list: what the buckets written anew list, and what
/// the other buckets listed.
pub proof fn lemma_rebuilt_lists(
    t: Table,
    d: Disk,
    t2: Table,
    d2: Disk,
    touched: Set<int>,
    a: u64,
    len: int,
    e: BucketEntry,
)
    requires
        t.well_formed(d),
        rebuilt(t, d, t2, d2, touched, a, len),
    ensures
        t2.listed(d2, e) <==> (exists|j: int|
            0 <= j < t2.header.bucket_count && touched.contains(j) && #[trigger] t2.entries(
                d2,
                j,
            ).contains(e)) || (exists|j: int|
            0 <= j < t.header.bucket_count && !touched.contains(j) && #[trigger] t.entries(
                d,
                j,
            ).contains(e)),
{
    reveal(rebuilt);
    if t2.listed(d2, e) {
        let j = choose|j: int|
            0 <= j < t2.header.bucket_count && #[trigger] t2.entries(d2, j).contains(e);
        if !touched.contains(j) {
            lemma_untouched(t, d, t2, d2, touched, a, len, j);
            assert(t.entries(d, j).contains(e));
        }
    }
    if exists|j: int|
        0 <= j < t.header.bucket_count && !touched.contains(j) && #[trigger] t.entries(
            d,
            j,
        ).contains(e) {
        let j = choose|j: int|
            0 <= j < t.header.bucket_count && !touched.contains(j) && #[trigger] t.entries(
                d,
                j,
            ).contains(e);
        lemma_untouched(t, d, t2, d2, touched, a, len, j);
        assert(t2.entries(d2, j).contains(e));
    }
}

} // verus!

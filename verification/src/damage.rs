//! What a store makes of files that may be damaged, in plain numbers.

use crate::error::Error;
use crate::lookup::LookupView;
use crate::model::Disk;
use crate::table::Table;
use crate::walk::{Stage, WalkView};
use vstd::prelude::*;

verus! {

/// Blocks have room for the header, and the state of linear hashing makes as
/// many buckets as the header counts, or one more.
pub open spec fn usable(t: Table) -> bool {
    let buckets = vstd::arithmetic::power2::pow2(t.level as nat) + t.next;
    &&& t.header.block_size >= 104
    &&& t.level < 63 || t.level == 63 && t.next == 0
    &&& t.next < vstd::arithmetic::power2::pow2(t.level as nat)
    &&& buckets == t.header.bucket_count || buckets == t.header.bucket_count + 1
}

/// The bucket of a key, by its hash with the salt for a seed.
pub open spec fn bucket_of(t: Table, key: Seq<u8>) -> int {
    crate::linear::index_of(t.level, t.next, crate::hash::xxh64_value(key, t.header.salt))
}

proof fn lemma_usable(t: Table, key: Seq<u8>)
    requires
        usable(t),
        key.len() == t.header.key_size,
        (bucket_of(t, key) + 2) * t.header.block_size <= u64::MAX,
    ensures
        t.ok(),
        t.reaches(t.hash(key)),
        t.looking(key, t.hash(key), true).sound(),
        t.looking(key, t.hash(key), false).sound(),
        0 <= bucket_of(t, key),
        (bucket_of(t, key) + 2) * t.header.block_size == (bucket_of(t, key) + 1)
            * t.header.block_size + t.header.block_size,
        0 <= (bucket_of(t, key) + 1) * t.header.block_size,
        forall|values: bool|
            (#[trigger] t.looking(key, t.hash(key), values)).walk.wanted() matches Some(request)
                && request.file is Key && request.offset == (bucket_of(t, key) + 1)
                * t.header.block_size && request.len == t.header.block_size,
{
    let i = bucket_of(t, key);
    let bs = t.header.block_size as int;
    crate::linear::lemma_index_bound(t.level, t.next, t.hash(key));
    assert((i + 2) * bs == (i + 1) * bs + bs && (i + 1) * bs >= 0 && i < u64::MAX)
        by (nonlinear_arith)
        requires
            i >= 0,
            bs >= 104,
            (i + 2) * bs <= u64::MAX,
    ;
    t.lemma_looking_sound(key, t.hash(key), true);
    t.lemma_looking_sound(key, t.hash(key), false);
}

/// Every operation on the key fails for this reason, and changes nothing.
pub open spec fn all_fail(t: Table, d: Disk, key: Seq<u8>, value: Seq<u8>, error: Error) -> bool {
    &&& t.fetching(d, key) == Err::<Option<Seq<u8>>, Error>(error)
    &&& t.finding(d, key) == Err::<bool, Error>(error)
    &&& t.inserting(d, key, value) == (Err::<bool, Error>(error), t, d)
    &&& t.upserting(d, key, value) == (Err::<(), Error>(error), t, d)
    &&& t.removing(d, key) == (Err::<bool, Error>(error), t, d)
}

/// Where blocks are too small for the header, no operation does anything.
pub proof fn law_blocks_too_small(t: Table, d: Disk, key: Seq<u8>, value: Seq<u8>)
    requires
        t.header.block_size < 104,
    ensures
        all_fail(t, d, key, value, Error::InvalidHeader),
{
}

/// Where the state of linear hashing is none, or makes neither as many buckets
/// as the header counts nor one more, no operation does anything.
pub proof fn law_state_unusable(t: Table, d: Disk, key: Seq<u8>, value: Seq<u8>)
    requires
        ({
            let power = vstd::arithmetic::power2::pow2(t.level as nat);
            ||| t.level > 63
            ||| t.next >= power
            ||| power + t.next < t.header.bucket_count
            ||| power + t.next > t.header.bucket_count + 1
        }),
    ensures
        all_fail(t, d, key, value, Error::InvalidHeader),
{
}

/// Where the block of a key's bucket would start past the last offset, every
/// operation on the key fails so.
pub proof fn law_block_beyond(t: Table, d: Disk, key: Seq<u8>, value: Seq<u8>)
    requires
        usable(t),
        key.len() == t.header.key_size,
        (bucket_of(t, key) + 1) * t.header.block_size > 0xffff_ffff_ffff_ffff,
    ensures
        all_fail(t, d, key, value, Error::UnexpectedEof),
{
}

/// Where the key file ends before the block of a key's bucket does, every
/// operation on the key fails so.
pub proof fn law_block_missing(t: Table, d: Disk, key: Seq<u8>, value: Seq<u8>)
    requires
        usable(t),
        key.len() == t.header.key_size,
        (bucket_of(t, key) + 2) * t.header.block_size <= u64::MAX,
        d.key.len() < (bucket_of(t, key) + 2) * t.header.block_size,
    ensures
        all_fail(t, d, key, value, Error::UnexpectedEof),
{
    lemma_usable(t, key);
}

/// Where the block of a key's bucket counts more entries than it has room for,
/// every operation on the key fails so.
pub proof fn law_block_overfull(t: Table, d: Disk, key: Seq<u8>, value: Seq<u8>)
    requires
        usable(t),
        key.len() == t.header.key_size,
        (bucket_of(t, key) + 2) * t.header.block_size <= u64::MAX,
        d.key.len() >= (bucket_of(t, key) + 2) * t.header.block_size,
        8 + 18 * crate::plain::number_at(d.key, (bucket_of(t, key) + 1) * t.header.block_size, 2)
            > t.header.block_size,
    ensures
        all_fail(t, d, key, value, Error::InvalidBucket),
{
    lemma_usable(t, key);
    lemma_block_read(t, d, key);
}

/// The block of the key's bucket is what a lookup reads first.
proof fn lemma_block_read(t: Table, d: Disk, key: Seq<u8>)
    requires
        usable(t),
        key.len() == t.header.key_size,
        (bucket_of(t, key) + 2) * t.header.block_size <= u64::MAX,
        d.key.len() >= (bucket_of(t, key) + 2) * t.header.block_size,
    ensures
        ({
            let base = (bucket_of(t, key) + 1) * t.header.block_size;
            let block = d.key.subrange(base, base + t.header.block_size);
            let first = t.looking(key, t.hash(key), true).walk.wanted();
            &&& first is Some
            &&& t.looking(key, t.hash(key), false).walk.wanted() == first
            &&& crate::progress::available(d, first->Some_0)
            &&& crate::progress::answer(d, first->Some_0) == block
            &&& crate::bucket::BucketView::decoding(block) is Some <==> 8 + 18
                * crate::plain::number_at(d.key, base, 2) <= t.header.block_size
            &&& crate::bucket::BucketView::decoding(block) matches Some(bucket) ==> {
                &&& bucket.fits(t.header.block_size as int)
                &&& bucket.entries.len() == crate::plain::number_at(d.key, base, 2)
                &&& bucket.spill == crate::plain::number_at(d.key, base + 2, 6)
                &&& bucket.entries.len() > 0 ==> {
                    &&& bucket.entries[0].offset == crate::plain::number_at(d.key, base + 8, 6)
                    &&& bucket.entries[0].hash == crate::plain::number_at(d.key, base + 20, 6)
                }
            }
        }),
{
    lemma_usable(t, key);
    let bs = t.header.block_size as int;
    let base = (bucket_of(t, key) + 1) * t.header.block_size;
    let block = d.key.subrange(base, base + bs);
    crate::places::lemma_number_within(d.key, base, base + bs, 0, 2);
    crate::places::lemma_number_within(d.key, base, base + bs, 2, 6);
    crate::plain::law_bucket_read(block, 0);
    if crate::bucket::BucketView::decoding(block) is Some {
        crate::bucket::lemma_decoded_bucket_fits(block);
        if crate::plain::number_at(d.key, base, 2) > 0 {
            crate::places::lemma_number_within(d.key, base, base + bs, 8, 6);
            crate::places::lemma_number_within(d.key, base, base + bs, 20, 6);
        }
    }
}

/// Where the first entry of a key's bucket has the key's hash, its record is
/// read first: a size below that of a key is noticed, then that the file ends
/// inside the key or, where the value is read, inside the value; the value of
/// the key is what follows the key.
pub proof fn law_first_entry(t: Table, d: Disk, key: Seq<u8>)
    requires
        usable(t),
        key.len() == t.header.key_size,
        (bucket_of(t, key) + 2) * t.header.block_size <= u64::MAX,
        d.key.len() >= (bucket_of(t, key) + 2) * t.header.block_size,
        ({
            let base = (bucket_of(t, key) + 1) * t.header.block_size;
            &&& 0 < crate::plain::number_at(d.key, base, 2)
            &&& 8 + 18 * crate::plain::number_at(d.key, base, 2) <= t.header.block_size
            &&& crate::plain::number_at(d.key, base + 20, 6) == crate::hash::xxh64_value(
                key,
                t.header.salt,
            ) / 0x1_0000
        }),
    ensures
        ({
            let base = (bucket_of(t, key) + 1) * t.header.block_size;
            let at = crate::plain::number_at(d.key, base + 8, 6);
            let size = crate::plain::number_at(d.dat, at, 6);
            let ks = key.len() as int;
            &&& d.dat.len() < at + 6 ==> {
                &&& t.fetching(d, key) == Err::<Option<Seq<u8>>, Error>(Error::UnexpectedEof)
                &&& t.finding(d, key) == Err::<bool, Error>(Error::UnexpectedEof)
            }
            &&& d.dat.len() >= at + 6 && size < ks ==> {
                &&& t.fetching(d, key) == Err::<Option<Seq<u8>>, Error>(Error::RecordTooSmall)
                &&& t.finding(d, key) == Err::<bool, Error>(Error::RecordTooSmall)
            }
            &&& at + 6 <= d.dat.len() < at + 6 + size && ks <= size ==> t.fetching(d, key) == Err::<
                Option<Seq<u8>>,
                Error,
            >(Error::UnexpectedEof)
            &&& at + 6 <= d.dat.len() < at + 6 + ks && ks <= size ==> t.finding(d, key) == Err::<
                bool,
                Error,
            >(Error::UnexpectedEof)
            &&& at + 6 + ks <= d.dat.len() && ks <= size && d.dat.subrange(at + 6, at + 6 + ks)
                == key ==> t.finding(d, key) == Ok::<bool, Error>(true)
            &&& at + 6 + size <= d.dat.len() && ks <= size && d.dat.subrange(at + 6, at + 6 + ks)
                == key ==> t.fetching(d, key) == Ok::<Option<Seq<u8>>, Error>(
                Some(d.dat.subrange(at + 6 + ks, at + 6 + size)),
            )
        }),
{
    lemma_usable(t, key);
    lemma_block_read(t, d, key);
    lemma_first_entry(t, d, key, true);
    lemma_first_entry(t, d, key, false);
}

/// The lookup of a key whose hash the first entry has.
proof fn lemma_first_entry(t: Table, d: Disk, key: Seq<u8>, values: bool)
    requires
        usable(t),
        key.len() == t.header.key_size,
        t.ok(),
        t.reaches(t.hash(key)),
        t.looking(key, t.hash(key), values).sound(),
        ({
            let first = t.looking(key, t.hash(key), values).walk.wanted()->Some_0;
            let home = crate::bucket::BucketView::decoding(crate::progress::answer(d, first));
            &&& crate::progress::available(d, first)
            &&& crate::progress::answer(d, first).len() == t.header.block_size
            &&& home matches Some(bucket) && {
                &&& bucket.fits(t.header.block_size as int)
                &&& bucket.entries.len() > 0
                &&& bucket.entries[0].hash == crate::hash::upper48(t.hash(key))
            }
        }),
    ensures
        ({
            let first = t.looking(key, t.hash(key), values).walk.wanted()->Some_0;
            let home = crate::bucket::BucketView::decoding(
                crate::progress::answer(d, first),
            )->Some_0;
            let at = home.entries[0].offset as int;
            let size = crate::plain::number_at(d.dat, at, 6);
            let ks = key.len() as int;
            let read = if values {
                size
            } else {
                ks
            };
            let end = t.sought(d, key, values);
            &&& d.dat.len() < at + 6 ==> end == Err::<LookupView, Error>(Error::UnexpectedEof)
            &&& d.dat.len() >= at + 6 && size < ks ==> end == Err::<LookupView, Error>(
                Error::RecordTooSmall,
            )
            &&& at + 6 <= d.dat.len() < at + 6 + read && ks <= size ==> end == Err::<
                LookupView,
                Error,
            >(Error::UnexpectedEof)
            &&& at + 6 + read <= d.dat.len() && ks <= size && d.dat.subrange(at + 6, at + 6 + ks)
                == key ==> (end matches Ok(l) && l.value == Some(
                d.dat.subrange(at + 6 + ks, at + 6 + read),
            ))
        }),
{
    let l0 = t.looking(key, t.hash(key), values);
    let first = l0.walk.wanted()->Some_0;
    let block = crate::progress::answer(d, first);
    let home = crate::bucket::BucketView::decoding(block)->Some_0;
    let at = home.entries[0].offset as int;
    let ks = key.len() as int;
    let pages = d.dat.len();
    crate::search::lemma_lookup_moves(l0, block, pages);
    let l1 = l0.given(block)->Ok_0;
    assert(t.sought(d, key, values) == crate::search::searched(d, l1, pages));
    assert(crate::walk::next_of_interest(l0.walk.filter, home.entries, 0) == 0);
    assert(l1.walk.stage == (crate::walk::Stage::Size { index: 0 }));
    if d.dat.len() >= at + 6 {
        let bytes = d.dat.subrange(at, at + 6);
        let size = crate::plain::number_at(d.dat, at, 6);
        crate::plain::law_digits_read(bytes);
        crate::codec::lemma_be_value_bound(bytes);
        crate::codec::lemma_radix_values();
        if size >= ks {
            crate::search::lemma_lookup_moves(l1, bytes, pages);
            let l2 = l1.given(bytes)->Ok_0;
            assert(crate::search::searched(d, l1, pages) == crate::search::searched(d, l2, pages));
            let read = if values {
                size
            } else {
                ks
            };
            assert(l2.walk.wanted()->Some_0.offset == at + 6 && l2.walk.wanted()->Some_0.len
                == read);
            if at + 6 + read <= d.dat.len() {
                let body = d.dat.subrange(at + 6, at + 6 + read);
                assert(body.take(ks) =~= d.dat.subrange(at + 6, at + 6 + ks));
                assert(body.skip(ks) =~= d.dat.subrange(at + 6 + ks, at + 6 + read));
                if body.take(ks) == key {
                    crate::search::lemma_lookup_moves(l2, body, pages);
                    let l3 = l2.given(body)->Ok_0;
                    assert(crate::search::searched(d, l2, pages) == crate::search::searched(
                        d,
                        l3,
                        pages,
                    ));
                }
            }
        }
    }
}

/// A key that cannot be inserted before it is counted leaves both files as they
/// were.
pub proof fn law_failed_insert(t: Table, d: Disk, key: Seq<u8>, value: Seq<u8>)
    requires
        t.inserting(d, key, value).0 is Err,
        t.inserting(d, key, value).1.header.key_count == t.header.key_count,
    ensures
        t.inserting(d, key, value).1 == t,
        t.inserting(d, key, value).2 == d,
{
}

/// An upsert that fails once the key's bucket has been read, before the key is
/// counted, leaves its record at the end of the data file, and all else as it
/// was.
pub proof fn law_failed_upsert(t: Table, d: Disk, key: Seq<u8>, value: Seq<u8>)
    requires
        usable(t),
        key.len() == t.header.key_size,
        (bucket_of(t, key) + 2) * t.header.block_size <= u64::MAX,
        d.key.len() >= (bucket_of(t, key) + 2) * t.header.block_size,
        8 + 18 * crate::plain::number_at(d.key, (bucket_of(t, key) + 1) * t.header.block_size, 2)
            <= t.header.block_size,
        d.dat.len() < 0x1_0000_0000_0000,
        key.len() + value.len() < 0x1_0000_0000_0000,
        t.upserting(d, key, value).0 is Err,
        t.upserting(d, key, value).1.header.key_count == t.header.key_count,
    ensures
        t.upserting(d, key, value).1 == t,
        t.upserting(d, key, value).2.key == d.key,
        ({
            let dat = t.upserting(d, key, value).2.dat;
            let at = d.dat.len() as int;
            &&& dat.len() == at + 6 + key.len() + value.len()
            &&& dat.take(at) == d.dat
            &&& crate::plain::number_at(dat, at, 6) == key.len() + value.len()
            &&& dat.subrange(at + 6, at + 6 + key.len()) == key
            &&& dat.skip(at + 6 + key.len()) == value
        }),
{
    lemma_usable(t, key);
    lemma_block_read(t, d, key);
    lemma_recorded(d, key, value);
}

/// The bytes of a record at the end of the data file.
proof fn lemma_recorded(d: Disk, key: Seq<u8>, value: Seq<u8>)
    requires
        d.dat.len() < 0x1_0000_0000_0000,
        key.len() + value.len() < 0x1_0000_0000_0000,
    ensures
        crate::write::recordable(key, value, d.dat.len() as int),
        ({
            let d1 = Table::recorded(d, key, value);
            let at = d.dat.len() as int;
            &&& d1.key == d.key
            &&& d1.dat.len() == at + 6 + key.len() + value.len()
            &&& d1.dat.take(at) == d.dat
            &&& crate::plain::number_at(d1.dat, at, 6) == key.len() + value.len()
            &&& d1.dat.subrange(at + 6, at + 6 + key.len()) == key
            &&& d1.dat.skip(at + 6 + key.len()) == value
        }),
{
    broadcast use crate::codec::lemma_be_bytes_len;

    let record = crate::write::data_record(key, value);
    let d1 = Table::recorded(d, key, value);
    let at = d.dat.len() as int;
    crate::plain::law_record_bytes(key, value);
    assert(d1.dat =~= d.dat + record);
    assert(d1.dat.take(at) =~= d.dat);
    assert(d1.dat.subrange(at, at + 6) =~= record.subrange(0, 6));
    assert(d1.dat.subrange(at + 6, at + 6 + key.len()) =~= record.subrange(
        6,
        6 + key.len() as int,
    ));
    assert(d1.dat.skip(at + 6 + key.len()) =~= record.skip(6 + key.len() as int));
}

/// An insert or an upsert counts one key more or none, and a removal one less
/// or none; no count runs over. Whatever the files hold.
pub proof fn law_counts_move(t: Table, d: Disk, key: Seq<u8>, value: Seq<u8>)
    ensures
        ({
            let after = t.inserting(d, key, value).1.header;
            &&& after.key_count == t.header.key_count || after.key_count == t.header.key_count + 1
            &&& t.inserting(d, key, value).0 == Ok::<bool, Error>(true) ==> after.key_count
                == t.header.key_count + 1
            &&& t.inserting(d, key, value).0 == Ok::<bool, Error>(false) ==> after == t.header
        }),
        ({
            let after = t.upserting(d, key, value).1.header;
            after.key_count == t.header.key_count || after.key_count == t.header.key_count + 1
        }),
        t.removing(d, key).0 == Ok::<bool, Error>(true) ==> t.removing(d, key).1.header.key_count
            == if t.header.key_count == 0 {
            0
        } else {
            t.header.key_count - 1
        },
        t.removing(d, key).0 != Ok::<bool, Error>(true) ==> t.removing(d, key).1 == t
            && t.removing(d, key).2 == d,
{
}

/// A key that is not found is not stored where no more keys can be counted.
pub proof fn law_count_exhausted(t: Table, d: Disk, key: Seq<u8>, value: Seq<u8>)
    requires
        t.header.key_count == 0xffff_ffff_ffff_ffff,
        t.fetching(d, key) == Ok::<Option<Seq<u8>>, Error>(None),
        key.len() == t.header.key_size,
    ensures
        t.inserting(d, key, value) == (Err::<bool, Error>(Error::KeyFileFull), t, d),
{
    t.lemma_sought_state(d, key, true);
}

/// The bucket in which a key was found is written back, unless it counts more
/// entries than a block has room for.
pub proof fn law_overlong_bucket(t: Table, l: LookupView, size: u64, offset: u64)
    requires
        l.sound(),
        l.found(),
    ensures
        ({
            let count = l.walk.current().entries.len();
            if 8 + 18 * count > t.header.block_size {
                &&& t.removal(l) is Err && t.removal(l)->Err_0 == Error::InvalidBucket
                &&& t.repointing(l, size, offset) is Err
                    && t.repointing(l, size, offset)->Err_0 == Error::InvalidBucket
            } else {
                t.removal(l) is Ok && t.repointing(l, size, offset) is Ok
            }
        }),
{
}

/// How long the spill record at `p` says that its bucket is.
pub open spec fn page_size(d: Disk, p: int) -> int {
    crate::plain::number_at(d.dat, p + 6, 2)
}

/// The header of a spill record is read.
proof fn lemma_page_header(d: Disk, l: LookupView, p: u64, pages: nat)
    requires
        l.sound(),
        l.walk.stage == (Stage::SpillSize { offset: p }),
        p + 8 <= d.dat.len(),
    ensures
        ({
            let len = page_size(d, p as int) as u64;
            let l2 = LookupView {
                walk: WalkView { stage: Stage::SpillBody { offset: p, len }, ..l.walk },
                ..l
            };
            &&& 0 <= page_size(d, p as int) <= 0xffff
            &&& l2.sound()
            &&& crate::search::searched(d, l, pages) == crate::search::searched(d, l2, pages)
        }),
{
    let bytes = d.dat.subrange(p as int, p + 8);
    crate::places::lemma_number_within(d.dat, p as int, p + 8, 6, 2);
    crate::plain::law_digits_read(bytes.subrange(6, 8));
    crate::codec::lemma_be_value_bound(bytes.subrange(6, 8));
    crate::codec::lemma_radix_values();
    assert(crate::progress::answer(d, l.walk.wanted()->Some_0) == bytes);
    crate::search::lemma_lookup_moves(l, bytes, pages);
}

/// The bucket of a spill record is read.
proof fn lemma_page_body(d: Disk, l: LookupView, p: u64, len: u64, pages: nat)
    requires
        l.sound(),
        l.walk.stage == (Stage::SpillBody { offset: p, len }),
        p + 8 + len <= d.dat.len(),
        pages > 0,
    ensures
        ({
            let count = crate::plain::number_at(d.dat, p + 8, 2);
            let spill = crate::plain::number_at(d.dat, p + 10, 6);
            let end = crate::search::searched(d, l, pages);
            &&& len < 8 || 8 + 18 * count > len ==> end == Err::<LookupView, Error>(
                Error::InvalidBucket,
            )
            &&& len >= 8 && count == 0 ==> {
                let l2 = LookupView {
                    walk: WalkView {
                        page: p,
                        spilled: crate::bucket::BucketView {
                            spill: spill as u64,
                            entries: Seq::empty(),
                        },
                        stage: if spill == 0 {
                            Stage::End
                        } else {
                            Stage::SpillSize { offset: spill as u64 }
                        },
                        ..l.walk
                    },
                    ..l
                };
                &&& 0 <= spill < 0x1_0000_0000_0000
                &&& l2.sound()
                &&& end == crate::search::searched(d, l2, (pages - 1) as nat)
            }
        }),
{
    let bytes = d.dat.subrange(p + 8, p + 8 + len);
    let count = crate::plain::number_at(d.dat, p + 8, 2);
    assert(crate::progress::answer(d, l.walk.wanted()->Some_0) == bytes);
    crate::plain::law_bucket_read(bytes, 0);
    if len >= 8 {
        crate::places::lemma_number_within(d.dat, p + 8, p + 8 + len, 0, 2);
        crate::places::lemma_number_within(d.dat, p + 8, p + 8 + len, 2, 6);
        crate::plain::law_digits_read(bytes.subrange(0, 2));
        if count == 0 {
            crate::search::lemma_lookup_moves(l, bytes, pages);
            crate::bucket::lemma_decoded_bucket_fits(bytes);
            let spilled = crate::bucket::BucketView::decoding(bytes)->Some_0;
            assert(spilled.entries =~= Seq::empty());
        }
    }
}

/// A key's bucket is empty, and a spill record at `p` continues it.
pub open spec fn continued_at(t: Table, d: Disk, key: Seq<u8>, p: int) -> bool {
    let base = (bucket_of(t, key) + 1) * t.header.block_size;
    &&& usable(t)
    &&& key.len() == t.header.key_size
    &&& (bucket_of(t, key) + 2) * t.header.block_size <= 0xffff_ffff_ffff_ffff
    &&& d.key.len() >= (bucket_of(t, key) + 2) * t.header.block_size
    &&& crate::plain::number_at(d.key, base, 2) == 0
    &&& crate::plain::number_at(d.key, base + 2, 6) == p
    &&& p > 0
}

/// Looking a key up fails for this reason, with its value or without.
pub open spec fn lookups_fail(t: Table, d: Disk, key: Seq<u8>, error: Error) -> bool {
    &&& t.fetching(d, key) == Err::<Option<Seq<u8>>, Error>(error)
    &&& t.finding(d, key) == Err::<bool, Error>(error)
}

/// The spill record that continues an empty bucket is read next. That the file
/// ends inside its header or inside its bucket is noticed, and that the bucket
/// counts more entries than it has room for; a bucket that is empty and has no
/// spill record ends the search.
pub proof fn law_spill_record_read(t: Table, d: Disk, key: Seq<u8>, p: int)
    requires
        continued_at(t, d, key, p),
    ensures
        d.dat.len() < p + 8 ==> lookups_fail(t, d, key, Error::UnexpectedEof),
        p + 8 <= d.dat.len() < p + 8 + page_size(d, p) ==> lookups_fail(
            t,
            d,
            key,
            Error::UnexpectedEof,
        ),
        p + 8 <= d.dat.len() && p + 8 + page_size(d, p) <= d.dat.len() && (page_size(d, p) < 8 || 8
            + 18 * crate::plain::number_at(d.dat, p + 8, 2) > page_size(d, p)) ==> lookups_fail(
            t,
            d,
            key,
            Error::InvalidBucket,
        ),
        p + 8 + page_size(d, p) <= d.dat.len() && page_size(d, p) >= 8 && crate::plain::number_at(
            d.dat,
            p + 8,
            2,
        ) == 0 && crate::plain::number_at(d.dat, p + 10, 6) == 0 ==> t.fetching(d, key) == Ok::<
            Option<Seq<u8>>,
            Error,
        >(None) && t.finding(d, key) == Ok::<bool, Error>(false),
{
    lemma_spill_record_read(t, d, key, p, true);
    lemma_spill_record_read(t, d, key, p, false);
}

/// An empty bucket leads a lookup to its spill record.
proof fn lemma_continued(t: Table, d: Disk, key: Seq<u8>, p: int, values: bool) -> (l: LookupView)
    requires
        continued_at(t, d, key, p),
    ensures
        p < 0x1_0000_0000_0000,
        l.sound(),
        l.walk.stage == (Stage::SpillSize { offset: p as u64 }),
        l.value is None,
        t.sought(d, key, values) == crate::search::searched(d, l, d.dat.len()),
{
    lemma_usable(t, key);
    lemma_block_read(t, d, key);
    let l0 = t.looking(key, t.hash(key), values);
    let block = crate::progress::answer(d, l0.walk.wanted()->Some_0);
    crate::search::lemma_lookup_moves(l0, block, d.dat.len());
    let home = crate::bucket::BucketView::decoding(block)->Some_0;
    assert(home.entries.len() == 0);
    l0.given(block)->Ok_0
}

proof fn lemma_spill_record_read(t: Table, d: Disk, key: Seq<u8>, p: int, values: bool)
    requires
        continued_at(t, d, key, p),
    ensures
        ({
            let end = t.sought(d, key, values);
            let len = page_size(d, p);
            let count = crate::plain::number_at(d.dat, p + 8, 2);
            &&& d.dat.len() < p + 8 ==> end == Err::<LookupView, Error>(Error::UnexpectedEof)
            &&& p + 8 <= d.dat.len() < p + 8 + len ==> end == Err::<LookupView, Error>(
                Error::UnexpectedEof,
            )
            &&& p + 8 <= d.dat.len() && p + 8 + len <= d.dat.len() && (len < 8 || 8 + 18 * count
                > len) ==> end == Err::<LookupView, Error>(Error::InvalidBucket)
            &&& p + 8 <= d.dat.len() && p + 8 + len <= d.dat.len() && len >= 8 && count == 0
                && crate::plain::number_at(d.dat, p + 10, 6) == 0 ==> (end matches Ok(l)
                && l.value is None)
        }),
{
    let l = lemma_continued(t, d, key, p, values);
    let pages = d.dat.len();
    if p + 8 <= d.dat.len() {
        let len = page_size(d, p) as u64;
        lemma_page_header(d, l, p as u64, pages);
        let l2 = LookupView {
            walk: WalkView { stage: Stage::SpillBody { offset: p as u64, len }, ..l.walk },
            ..l
        };
        assert(l2.walk.wanted()->Some_0.offset == p + 8);
        if p + 8 + len <= d.dat.len() {
            lemma_page_body(d, l2, p as u64, len, pages);
        }
    }
}

/// Where the spill record of a key's bucket is empty and leads back to itself,
/// a lookup does not go on for ever.
pub proof fn law_endless_chain(t: Table, d: Disk, key: Seq<u8>, p: int)
    requires
        continued_at(t, d, key, p),
        p + 8 + page_size(d, p) <= d.dat.len(),
        p + 8 <= d.dat.len(),
        page_size(d, p) >= 8,
        crate::plain::number_at(d.dat, p + 8, 2) == 0,
        crate::plain::number_at(d.dat, p + 10, 6) == p,
    ensures
        lookups_fail(t, d, key, Error::EndlessChain),
{
    let l = lemma_continued(t, d, key, p, true);
    lemma_round(d, l, p, d.dat.len());
    let k = lemma_continued(t, d, key, p, false);
    lemma_round(d, k, p, d.dat.len());
}

proof fn lemma_round(d: Disk, l: LookupView, p: int, pages: nat)
    requires
        0 < p < 0x1_0000_0000_0000,
        l.sound(),
        l.walk.stage == (Stage::SpillSize { offset: p as u64 }),
        p + 8 + page_size(d, p) <= d.dat.len(),
        p + 8 <= d.dat.len(),
        page_size(d, p) >= 8,
        crate::plain::number_at(d.dat, p + 8, 2) == 0,
        crate::plain::number_at(d.dat, p + 10, 6) == p,
    ensures
        crate::search::searched(d, l, pages) == Err::<LookupView, Error>(Error::EndlessChain),
    decreases pages,
{
    let len = page_size(d, p) as u64;
    lemma_page_header(d, l, p as u64, pages);
    let l2 = LookupView {
        walk: WalkView { stage: Stage::SpillBody { offset: p as u64, len }, ..l.walk },
        ..l
    };
    if pages > 0 {
        lemma_page_body(d, l2, p as u64, len, pages);
        let l3 = LookupView {
            walk: WalkView {
                page: p as u64,
                spilled: crate::bucket::BucketView { spill: p as u64, entries: Seq::empty() },
                stage: Stage::SpillSize { offset: p as u64 },
                ..l2.walk
            },
            ..l2
        };
        lemma_round(d, l3, p, (pages - 1) as nat);
    } else {
        assert(l2.walk.wanted()->Some_0.offset == p + 8);
    }
}

/// What becomes of a split whatever the files hold. Nothing is split within the
/// load factor. Over it, a table at its last level has no room; the next bucket's
/// block is read, where it has an offset and the file does not end first, and
/// is to count no more entries than it has room for. An empty bucket makes two
/// empty buckets, if the key file can take one more block.
pub proof fn law_split_tried(t: Table, d: Disk)
    requires
        usable(t),
    ensures
        ({
            let places = t.header.bucket_count * ((t.header.block_size - 8) / 18);
            let load = t.header.key_count * 65536 / if places == 0 {
                1
            } else {
                places
            };
            let bs = t.header.block_size as int;
            let base = (t.next + 1) * bs;
            let (outcome, t2, d2) = t.balancing(d);
            &&& outcome is Err ==> t2 == t && d2 == d
            &&& load <= t.header.load_factor ==> (outcome, t2, d2) == (Ok::<(), Error>(()), t, d)
            &&& load > t.header.load_factor ==> {
                &&& t.level == 63 ==> outcome == Err::<(), Error>(Error::KeyFileFull)
                &&& t.level < 63 && base > 0xffff_ffff_ffff_ffff ==> outcome == Err::<(), Error>(
                    Error::UnexpectedEof,
                )
                &&& t.level < 63 && base <= 0xffff_ffff_ffff_ffff && d.key.len() < base + bs
                    ==> outcome == Err::<(), Error>(Error::UnexpectedEof)
                &&& t.level < 63 && base <= 0xffff_ffff_ffff_ffff && d.key.len() >= base + bs && 8
                    + 18 * crate::plain::number_at(d.key, base, 2) > bs ==> outcome == Err::<
                    (),
                    Error,
                >(Error::InvalidBucket)
                &&& t.level < 63 && base <= 0xffff_ffff_ffff_ffff && d.key.len() >= base + bs
                    && crate::plain::number_at(d.key, base, 8) == 0 ==> if (t.header.bucket_count
                    + 2) * bs > 0x7fff_ffff_ffff_ffff {
                    outcome == Err::<(), Error>(Error::KeyFileFull)
                } else {
                    &&& outcome == Ok::<(), Error>(())
                    &&& t2.header.bucket_count == t.header.bucket_count + 1
                    &&& d2.dat == d.dat
                }
            }
        }),
{
    lemma_load_places(t);
    if t.overloaded() && t.level < 63 && (t.next + 1) * t.header.block_size <= u64::MAX {
        lemma_split_tried(t, d);
    }
}

/// The load of any header.
proof fn lemma_load_places(t: Table)
    requires
        t.header.block_size >= 104,
    ensures
        ({
            let places = t.header.bucket_count * ((t.header.block_size - 8) / 18);
            t.overloaded() <==> t.header.key_count * 65536 / if places == 0 {
                1
            } else {
                places
            } > t.header.load_factor
        }),
{
    let n = t.header.bucket_count as int;
    let c = (t.header.block_size - 8) / 18;
    assert(n * c >= 0) by (nonlinear_arith)
        requires
            n >= 0,
            c >= 1,
    ;
}

/// The first read of a split.
proof fn lemma_split_tried(t: Table, d: Disk)
    requires
        usable(t),
        t.overloaded(),
        t.level < 63,
        (t.next + 1) * t.header.block_size <= u64::MAX,
    ensures
        ({
            let bs = t.header.block_size as int;
            let base = (t.next + 1) * bs;
            let (outcome, t2, d2) = t.balancing(d);
            &&& d.key.len() < base + bs ==> outcome == Err::<(), Error>(Error::UnexpectedEof)
            &&& d.key.len() >= base + bs && 8 + 18 * crate::plain::number_at(d.key, base, 2) > bs
                ==> outcome == Err::<(), Error>(Error::InvalidBucket)
            &&& d.key.len() >= base + bs && crate::plain::number_at(d.key, base, 8) == 0 ==> if (
            t.header.bucket_count + 2) * bs > 0x7fff_ffff_ffff_ffff {
                outcome == Err::<(), Error>(Error::KeyFileFull)
            } else {
                &&& outcome == Ok::<(), Error>(())
                &&& t2.header.bucket_count == t.header.bucket_count + 1
                &&& d2.dat == d.dat
            }
        }),
{
    let bs = t.bs();
    let base = (t.next + 1) * bs;
    t.lemma_splitting_sound();
    assert(base >= 0) by (nonlinear_arith)
        requires
            base == (t.next + 1) * bs,
            bs >= 0,
    ;
    let sp = t.splitting();
    let request = sp.walk.wanted()->Some_0;
    assert(request.offset == base && request.len == bs);
    if d.key.len() >= base + bs {
        let block = d.key.subrange(base, base + bs);
        assert(crate::progress::answer(d, request) == block);
        crate::plain::law_bucket_read(block, 0);
        crate::places::lemma_number_within(d.key, base, base + bs, 0, 2);
        if crate::plain::number_at(d.key, base, 8) == 0 {
            lemma_zero_parts(d.key, base);
            crate::places::lemma_number_within(d.key, base, base + bs, 2, 6);
            crate::search::lemma_split_moves(sp, block, d.dat.len());
            let sp2 = sp.given(block)->Ok_0;
            let home = crate::bucket::BucketView::decoding(block)->Some_0;
            assert(home.entries.len() == 0 && home.spill == 0);
            assert(crate::search::sorted_out(d, sp, d.dat.len()) == crate::search::sorted_out(
                d,
                sp2,
                d.dat.len(),
            ));
            assert(sp2.keep.len() == 0 && sp2.moved.len() == 0);
            if t.can_grow() {
                t.lemma_growing_bound();
                let writes = t.splitted(sp2, d.dat.len() as u64)->Ok_0;
                crate::effects::lemma_three_written(d, writes);
                assert(t.balancing(d).2.dat =~= d.dat);
            }
        }
    }
}

/// Eight bytes that make zero are zeros.
proof fn lemma_zero_parts(bytes: Seq<u8>, at: int)
    requires
        0 <= at,
        at + 8 <= bytes.len(),
        crate::plain::number_at(bytes, at, 8) == 0,
    ensures
        crate::plain::number_at(bytes, at, 2) == 0,
        crate::plain::number_at(bytes, at + 2, 6) == 0,
{
    lemma_zero_digits(bytes.subrange(at, at + 8));
    assert forall|x: int| at <= x < at + 8 implies bytes[x] == 0 by {
        assert(bytes.subrange(at, at + 8)[x - at] == 0);
    }
    lemma_zeros_make_zero(bytes.subrange(at, at + 2));
    lemma_zeros_make_zero(bytes.subrange(at + 2, at + 8));
}

proof fn lemma_zero_digits(bytes: Seq<u8>)
    requires
        crate::plain::number(bytes) == 0,
    ensures
        forall|i: int| 0 <= i < bytes.len() ==> bytes[i] == 0,
    decreases bytes.len(),
{
    if bytes.len() > 0 {
        crate::plain::law_digits_read(bytes.drop_last());
        lemma_zero_digits(bytes.drop_last());
        assert forall|i: int| 0 <= i < bytes.len() implies bytes[i] == 0 by {
            if i < bytes.len() - 1 {
                assert(bytes.drop_last()[i] == bytes[i]);
            }
        }
    }
}

proof fn lemma_zeros_make_zero(bytes: Seq<u8>)
    requires
        forall|i: int| 0 <= i < bytes.len() ==> bytes[i] == 0,
    ensures
        crate::plain::number(bytes) == 0,
    decreases bytes.len(),
{
    if bytes.len() > 0 {
        lemma_zeros_make_zero(bytes.drop_last());
    }
}

} // verus!

//! Changes to the files, as bytes to be written.

use crate::bucket::{Bucket, BucketEntry, BucketView};
use crate::codec::put_be;
use crate::error::Error;
use crate::format::{put_zeros, KeyHeader, BUCKET_HEADER_SIZE, ENTRY_SIZE, LIMIT48, SPILL_HEADER_SIZE};
use crate::walk::FileKind;
use vstd::prelude::*;

verus! {

/// Bytes to be written to a file, over what is there or past its end.
#[derive(Debug)]
pub struct Write {
    pub file: FileKind,
    pub offset: u64,
    pub bytes: Vec<u8>,
}

impl View for Write {
    type V = WriteView;

    open spec fn view(&self) -> WriteView {
        WriteView { file: self.file, offset: self.offset, bytes: self.bytes@ }
    }
}

/// Bytes to be written to a file.
#[verifier::ext_equal]
pub struct WriteView {
    pub file: FileKind,
    pub offset: u64,
    pub bytes: Seq<u8>,
}

/// The writes of a list, in its order.
pub open spec fn views(writes: Seq<Write>) -> Seq<WriteView> {
    Seq::new(writes.len(), |i: int| writes[i]@)
}

/// The bytes of a data record.
pub open spec fn data_record(key: Seq<u8>, value: Seq<u8>) -> Seq<u8> {
    crate::codec::be_bytes(key.len() + value.len(), 6) + key + value
}

/// The record of a key and a value, as it is to be appended at `at`.
pub open spec fn appending(key: Seq<u8>, value: Seq<u8>, at: u64) -> WriteView {
    WriteView { file: FileKind::Dat, offset: at, bytes: data_record(key, value) }
}

/// The bytes of a spill record.
pub open spec fn spill_record(bucket: BucketView, block_size: int) -> Seq<u8> {
    crate::format::zeros(6) + crate::codec::be_bytes(block_size as nat, 2) + bucket.encoding(
        block_size,
    )
}

/// Bytes in a spill record.
pub open spec fn spill_size(header: KeyHeader) -> int {
    SPILL_HEADER_SIZE + header.block_size
}

/// A bucket takes an entry: what the bucket is then, and what has to be
/// appended to the data file, whose end is at `end`. A full bucket is first
/// moved to a spill record, which the emptied bucket points to.
pub open spec fn placed(header: KeyHeader, bucket: BucketView, entry: BucketEntry, end: int) -> (
    BucketView,
    Seq<u8>,
) {
    if bucket.entries.len() >= header.capacity() {
        (
            BucketView { spill: end as u64, entries: Seq::empty() }.with_entry(entry),
            spill_record(bucket, header.block_size as int),
        )
    } else {
        (bucket.with_entry(entry), Seq::empty())
    }
}

/// An empty bucket takes entries, one after the other.
pub open spec fn gathered(header: KeyHeader, entries: Seq<BucketEntry>, end: int) -> (
    BucketView,
    Seq<u8>,
)
    decreases entries.len(),
{
    if entries.len() == 0 {
        (BucketView::blank(), Seq::empty())
    } else {
        let (bucket, tail) = gathered(header, entries.drop_last(), end);
        let (after, more) = placed(header, bucket, entries.last(), end + tail.len());
        (after, tail + more)
    }
}

/// The number of spill records that it takes to gather `count` entries.
pub open spec fn spills(header: KeyHeader, count: int) -> int {
    if count <= 0 {
        0
    } else {
        (count - 1) / header.capacity()
    }
}

/// A record of this key and value can be appended at `at`: its offset and its
/// size fit in 48 bits.
pub open spec fn recordable(key: Seq<u8>, value: Seq<u8>, at: int) -> bool {
    at < LIMIT48 && key.len() + value.len() < LIMIT48
}

/// This many spill records can be appended from `at` on: the offset of each
/// fits in 48 bits.
pub open spec fn room_for(header: KeyHeader, at: int, count: int) -> bool {
    count > 0 ==> at + (count - 1) * spill_size(header) < LIMIT48
}

/// There is room for two lots of spill records exactly if there is room for
/// each, one after the other.
pub proof fn lemma_room_parts(header: KeyHeader, at: int, a: int, b: int)
    requires
        a >= 0,
        b >= 0,
    ensures
        room_for(header, at, a + b) <==> room_for(header, at, a) && room_for(
            header,
            at + a * spill_size(header),
            b,
        ),
        (a + b) * spill_size(header) == a * spill_size(header) + b * spill_size(header),
        a * spill_size(header) >= 0,
        b * spill_size(header) >= 0,
        room_for(header, at, a) && a > 0 ==> at + a * spill_size(header) < LIMIT48 + spill_size(
            header,
        ),
{
    let size = spill_size(header);
    assert((a + b) * size == a * size + b * size && a * size >= 0 && b * size >= 0 && (a + b - 1)
        * size == a * size + (b - 1) * size && (a - 1) * size == a * size - size) by (nonlinear_arith)
        requires
            a >= 0,
            b >= 0,
            size >= 0,
    ;
    if b > 0 {
        assert((b - 1) * size >= 0) by (nonlinear_arith)
            requires
                b > 0,
                size >= 0,
        ;
    }
}

/// The bytes of a data record.
pub fn encode_record(key: &[u8], value: &[u8]) -> (bytes: Vec<u8>)
    requires
        key@.len() + value@.len() < LIMIT48,
    ensures
        bytes@ == data_record(key@, value@),
        bytes@.len() == 6 + key@.len() + value@.len(),
{
    proof {
        broadcast use crate::codec::lemma_be_bytes_len;

    }
    let size: u64 = key.len() as u64 + value.len() as u64;
    let mut buf: Vec<u8> = crate::codec::write_u48(size);
    buf.extend_from_slice(key);
    buf.extend_from_slice(value);
    assert(buf@ =~= data_record(key@, value@));
    buf
}

/// What to write to append the record of a key and a value to the data file,
/// whose size is `dat_len`.
pub fn append_record(key: &[u8], value: &[u8], dat_len: u64) -> (write: Result<Write, Error>)
    ensures
        if recordable(key@, value@, dat_len as int) {
            write is Ok && write->Ok_0@ == appending(key@, value@, dat_len)
        } else {
            write == Err::<Write, Error>(Error::DataFileFull)
        },
{
    let width: u64 = key.len() as u64;
    let size: u64 = value.len() as u64;
    if dat_len >= LIMIT48 || width >= LIMIT48 || size >= LIMIT48 || width + size >= LIMIT48 {
        return Err(Error::DataFileFull);
    }
    Ok(Write { file: FileKind::Dat, offset: dat_len, bytes: encode_record(key, value) })
}

/// Moves a full bucket to a spill record, appended to `tail`, and leaves the
/// bucket empty, pointing to the record at `offset`.
pub fn spill_bucket(bucket: &mut Bucket, block_size: u16, offset: u64, tail: &mut Vec<u8>)
    requires
        old(bucket)@.fits(block_size as int),
    ensures
        final(bucket)@ == (BucketView { spill: offset, entries: Seq::empty() }),
        final(tail)@ == old(tail)@ + spill_record(old(bucket)@, block_size as int),
        final(tail)@.len() == old(tail)@.len() + SPILL_HEADER_SIZE + block_size,
{
    proof {
        broadcast use crate::codec::lemma_be_bytes_len;

    }
    put_zeros(tail, 6);
    put_be(tail, block_size as u64, 2);
    let mut bytes: Vec<u8> = bucket.to_bytes(block_size as usize);
    tail.append(&mut bytes);
    assert(tail@ =~= old(tail)@ + spill_record(old(bucket)@, block_size as int));
    bucket.spill = offset;
    bucket.entries.clear();
    assert(bucket@ =~= (BucketView { spill: offset, entries: Seq::empty() }));
}

/// Adding an entry to a bucket that is not full keeps it fit for its block.
pub proof fn lemma_with_entry_fits(header: KeyHeader, bucket: BucketView, entry: BucketEntry)
    requires
        bucket.fits(header.block_size as int),
        bucket.entries.len() < header.capacity(),
        entry.fits(),
    ensures
        bucket.with_entry(entry).fits(header.block_size as int),
        bucket.with_entry(entry).entries.len() == bucket.entries.len() + 1,
{
    crate::bucket::lemma_slot_range(bucket.entries, entry.hash);
    let at = crate::bucket::slot(bucket.entries, entry.hash);
    let after = bucket.with_entry(entry);
    assert forall|i: int| 0 <= i < after.entries.len() implies (#[trigger] after.entries[i]).fits() by {
        if i < at {
            assert(after.entries[i] == bucket.entries[i]);
        } else if i > at {
            assert(after.entries[i] == bucket.entries[i - 1]);
        }
    }
}

/// A bucket takes an entry. `tail` is what is already to be appended to the
/// data file, which ends at `end` without it.
pub fn place(
    header: &KeyHeader,
    bucket: &mut Bucket,
    entry: BucketEntry,
    end: u64,
    tail: &mut Vec<u8>,
) -> (outcome: Result<(), Error>)
    requires
        header.capacity() >= 1,
        old(bucket)@.fits(header.block_size as int),
        entry.fits(),
    ensures
        ({
            let full = old(bucket)@.entries.len() >= header.capacity();
            let at = end + old(tail)@.len();
            let (after, more) = placed(*header, old(bucket)@, entry, at);
            if full && at >= LIMIT48 {
                &&& outcome == Err::<(), Error>(Error::DataFileFull)
                &&& final(bucket)@ == old(bucket)@
                &&& final(tail)@ == old(tail)@
            } else {
                &&& outcome is Ok
                &&& final(bucket)@ == after
                &&& final(bucket)@.fits(header.block_size as int)
                &&& final(tail)@ == old(tail)@ + more
                &&& more.len() == if full {
                    spill_size(*header)
                } else {
                    0
                }
            }
        }),
{
    let ghost before = bucket@;
    if bucket.entries.len() >= header.bucket_capacity() {
        let more: u64 = tail.len() as u64;
        if more >= LIMIT48 || end >= LIMIT48 - more {
            return Err(Error::DataFileFull);
        }
        let offset: u64 = end + more;
        spill_bucket(bucket, header.block_size, offset, tail);
        proof {
            crate::bucket::law_bucket_read_back(before, header.block_size as int);
        }
    }
    proof {
        lemma_with_entry_fits(*header, bucket@, entry);
    }
    bucket.insert(entry);
    assert(tail@ =~= old(tail)@ + placed(
        *header,
        before,
        entry,
        end + old(tail)@.len(),
    ).1);
    Ok(())
}

/// The number of entries in a gathered bucket, and of the bytes spilled.
pub proof fn lemma_gathered(header: KeyHeader, entries: Seq<BucketEntry>, end: int)
    requires
        header.capacity() >= 1,
        0 <= end,
        room_for(header, end, spills(header, entries.len() as int)),
        forall|i: int| 0 <= i < entries.len() ==> (#[trigger] entries[i]).fits(),
    ensures
        ({
            let (bucket, tail) = gathered(header, entries, end);
            let count = spills(header, entries.len() as int);
            &&& bucket.fits(header.block_size as int)
            &&& bucket.entries.len() == entries.len() - count * header.capacity()
            &&& entries.len() > 0 ==> bucket.entries.len() >= 1
            &&& tail.len() == count * spill_size(header)
            &&& 0 <= count
        }),
    decreases entries.len(),
{
    let cap = header.capacity();
    let size = spill_size(header);
    if entries.len() > 0 {
        let rest = entries.drop_last();
        let n = entries.len() as int;
        let count = spills(header, n);
        let less = spills(header, n - 1);
        lemma_spills_step(cap, n);
        assert((less - 1) * size <= (count - 1) * size) by (nonlinear_arith)
            requires
                less <= count,
                size >= 0,
        ;
        assert forall|i: int| 0 <= i < rest.len() implies (#[trigger] rest[i]).fits() by {
            assert(rest[i] == entries[i]);
        }
        assert(entries[n - 1].fits());
        lemma_gathered(header, rest, end);
        let (bucket, tail) = gathered(header, rest, end);
        if bucket.entries.len() >= cap {
            assert(count == less + 1) by {
                assert(bucket.entries.len() == n - 1 - less * cap);
            }
            assert(count * size == less * size + size && count * cap == less * cap + cap)
                by (nonlinear_arith)
                requires
                    count == less + 1,
            ;
            crate::bucket::law_bucket_read_back(bucket, header.block_size as int);
            broadcast use crate::codec::lemma_be_bytes_len;

            let emptied = BucketView { spill: (end + tail.len()) as u64, entries: Seq::empty() };
            lemma_with_entry_fits(header, emptied, entries.last());
        } else {
            assert(count == less);
            lemma_with_entry_fits(header, bucket, entries.last());
        }
    } else {
        assert(spills(header, 0) * size == 0);
    }
}

/// One more entry takes at most one more spill record, and takes it exactly
/// when the bucket before it was full.
pub proof fn lemma_spills_step(cap: int, n: int)
    requires
        cap >= 1,
        n >= 1,
    ensures
        ({
            let count = (n - 1) / cap;
            let less = if n == 1 {
                0
            } else {
                (n - 2) / cap
            };
            &&& 0 <= less <= count <= less + 1
            &&& n - 1 - less * cap >= cap ==> count == less + 1
            &&& n - 1 - less * cap < cap ==> count == less
            &&& n - 1 - less * cap <= cap
        }),
{
    let count = (n - 1) / cap;
    vstd::arithmetic::div_mod::lemma_fundamental_div_mod(n - 1, cap);
    vstd::arithmetic::div_mod::lemma_mod_bound(n - 1, cap);
    if n == 1 {
        vstd::arithmetic::div_mod::lemma_div_basics(cap);
        assert(count == 0) by (nonlinear_arith)
            requires
                count == 0int / cap,
                cap >= 1,
        ;
    } else {
        let less = (n - 2) / cap;
        vstd::arithmetic::div_mod::lemma_fundamental_div_mod(n - 2, cap);
        vstd::arithmetic::div_mod::lemma_mod_bound(n - 2, cap);
        assert(0 <= less <= count <= less + 1 && (n - 1 - less * cap >= cap ==> count == less + 1)
            && (n - 1 - less * cap < cap ==> count == less) && n - 1 - less * cap <= cap)
            by (nonlinear_arith)
            requires
                n >= 2,
                cap >= 1,
                n - 1 == cap * count + (n - 1) % cap,
                0 <= (n - 1) % cap < cap,
                n - 2 == cap * less + (n - 2) % cap,
                0 <= (n - 2) % cap < cap,
        ;
    }
}

/// An empty bucket takes entries. `tail` is what is already to be appended to
/// the data file, which ends at `end` without it.
pub fn gather(
    header: &KeyHeader,
    entries: &Vec<BucketEntry>,
    end: u64,
    tail: &mut Vec<u8>,
) -> (bucket: Result<Bucket, Error>)
    requires
        header.capacity() >= 1,
        forall|i: int| 0 <= i < entries@.len() ==> (#[trigger] entries@[i]).fits(),
    ensures
        ({
            let at = end + old(tail)@.len();
            let (gathering, more) = gathered(*header, entries@, at);
            if !room_for(*header, at, spills(*header, entries@.len() as int)) {
                bucket == Err::<Bucket, Error>(Error::DataFileFull)
            } else {
                &&& bucket is Ok
                &&& bucket->Ok_0@ == gathering
                &&& gathering.fits(header.block_size as int)
                &&& final(tail)@ == old(tail)@ + more
            }
        }),
{
    let mut bucket = Bucket::new();
    let mut i: usize = 0;
    let ghost at = end + old(tail)@.len();
    let ghost size = spill_size(*header);
    assert(entries@.take(0) =~= Seq::empty());
    assert(spills(*header, 0) * size == 0);
    assert(tail@ =~= old(tail)@ + gathered(*header, entries@.take(0), at).1);
    while i < entries.len()
        invariant
            i <= entries@.len(),
            header.capacity() >= 1,
            size == spill_size(*header),
            at == end + old(tail)@.len(),
            forall|i: int| 0 <= i < entries@.len() ==> (#[trigger] entries@[i]).fits(),
            room_for(*header, at, spills(*header, i as int)),
            bucket@ == gathered(*header, entries@.take(i as int), at).0,
            bucket@.fits(header.block_size as int),
            tail@ == old(tail)@ + gathered(*header, entries@.take(i as int), at).1,
        decreases entries@.len() - i,
    {
        let ghost prefix = entries@.take(i as int);
        let ghost longer = entries@.take(i + 1);
        let ghost all = entries@.len() as int;
        proof {
            assert(longer.drop_last() =~= prefix);
            assert(longer.last() == entries@[i as int]);
            assert forall|j: int| 0 <= j < prefix.len() implies (#[trigger] prefix[j]).fits() by {
                assert(prefix[j] == entries@[j]);
            }
            lemma_gathered(*header, prefix, at);
            lemma_spills_step(header.capacity(), i + 1);
            lemma_spills_monotone(*header, i + 1, all);
        }
        match place(header, &mut bucket, entries[i], end, tail) {
            Ok(()) => {},
            Err(error) => {
                proof {
                    let less = spills(*header, i as int);
                    let count = spills(*header, i + 1);
                    assert(count == less + 1);
                    assert((count - 1) * size <= (spills(*header, all) - 1) * size)
                        by (nonlinear_arith)
                        requires
                            count <= spills(*header, all),
                            size >= 0,
                    ;
                }
                return Err(error);
            },
        }
        proof {
            let less = spills(*header, i as int);
            let count = spills(*header, i + 1);
            assert(tail@ =~= old(tail)@ + gathered(*header, longer, at).1);
        }
        i = i + 1;
    }
    assert(entries@.take(entries@.len() as int) =~= entries@);
    Ok(bucket)
}

pub proof fn lemma_spills_monotone(header: KeyHeader, a: int, b: int)
    requires
        header.capacity() >= 1,
        0 <= a <= b,
    ensures
        0 <= spills(header, a) <= spills(header, b),
    decreases b - a,
{
    if a < b {
        lemma_spills_step(header.capacity(), b);
        lemma_spills_monotone(header, a, b - 1);
    } else if a > 0 {
        lemma_spills_step(header.capacity(), a);
    }
}

/// Whether a bucket can be written in a block.
pub(crate) fn fits_block(bucket: &Bucket, block_size: u16) -> (fits: bool)
    requires
        crate::walk::WalkView::small(bucket@),
    ensures
        fits == bucket@.fits(block_size as int),
{
    let block: usize = block_size as usize;
    block >= BUCKET_HEADER_SIZE && (block - BUCKET_HEADER_SIZE) / ENTRY_SIZE >= bucket.entries.len()
}

} // verus!
